//! The subscriber worker: owns subscriber-side connections, keeps the
//! channel roster, and fans broadcast messages out to every subscriber of
//! their channel.
//!
//! INVARIANT: every token in any roster belongs to a live connection of this
//! worker (`wf`), and a closed connection's token is swept from every roster
//! at once.

use std::collections::HashMap;
use vstd::prelude::*;
use crate::bytebuf::{bm_contents, bm_with_capacity, bm_extend};
use crate::connection::{
    Connection, ConnectionView, ConnClosed, ReadOutcome, WriteOutcome, drain_pub, drain_sub,
};
use crate::messages::{PubMessage, PubMessageView, Subscribe};
use crate::codec::{LineCodec, pub_frame};
use crate::BUFFER_SIZE;

verus! {

broadcast use vstd::std_specs::hash::group_hash_axioms;

/// One channel: its name and the tokens subscribed to it, in subscription
/// order. A token may appear more than once (duplicate subscriptions cause
/// duplicate deliveries).
pub struct ChannelEntry {
    pub name: Vec<u8>,
    pub subs: Vec<usize>,
}

/// Mathematical value of a `ChannelEntry`.
pub struct ChannelEntryView {
    pub name: Seq<u8>,
    pub subs: Seq<usize>,
}

impl View for ChannelEntry {
    type V = ChannelEntryView;

    open spec fn view(&self) -> ChannelEntryView {
        ChannelEntryView { name: self.name@, subs: self.subs@ }
    }
}

/// The channel list, as values.
pub open spec fn chans_view(chans: Seq<ChannelEntry>) -> Seq<ChannelEntryView> {
    chans.map_values(|e: ChannelEntry| e@)
}

/// The connection map, as values.
pub open spec fn conns_view(m: Map<usize, Connection>) -> Map<usize, ConnectionView> {
    m.map_values(|c: Connection| c@)
}

/// Index of the first entry named `ch`, or the length when there is none.
pub open spec fn first_idx(chans: Seq<ChannelEntryView>, ch: Seq<u8>) -> nat
    decreases chans.len(),
{
    if chans.len() == 0 {
        0
    } else if chans[0].name == ch {
        0
    } else {
        1 + first_idx(chans.skip(1), ch)
    }
}

/// What `first_idx` finds.
pub proof fn lemma_first_idx(chans: Seq<ChannelEntryView>, ch: Seq<u8>)
    ensures
        first_idx(chans, ch) <= chans.len(),
        first_idx(chans, ch) < chans.len() ==> chans[first_idx(chans, ch) as int].name == ch,
        forall|j: int| 0 <= j < first_idx(chans, ch) ==> chans[j].name != ch,
    decreases chans.len(),
{
    if chans.len() > 0 && chans[0].name != ch {
        lemma_first_idx(chans.skip(1), ch);
        assert forall|j: int| 0 <= j < first_idx(chans, ch) implies chans[j].name != ch by {
            if j > 0 {
                assert(chans.skip(1)[j - 1] == chans[j]);
            }
        }
    }
}

/// A position with no match before it, and a match (or the end) at it, is
/// where `first_idx` points.
pub proof fn lemma_first_idx_is(chans: Seq<ChannelEntryView>, ch: Seq<u8>, n: nat)
    requires
        n <= chans.len(),
        forall|j: int| 0 <= j < n ==> chans[j].name != ch,
        n < chans.len() ==> chans[n as int].name == ch,
    ensures
        first_idx(chans, ch) == n,
    decreases chans.len(),
{
    if chans.len() == 0 {
    } else if chans[0].name == ch {
        assert(n == 0);
    } else {
        assert(n >= 1);
        assert(forall|j: int| 0 <= j < n - 1 ==> chans.skip(1)[j] == chans[j + 1]);
        if n - 1 < chans.skip(1).len() {
            assert(chans.skip(1)[n - 1] == chans[n as int]);
        }
        lemma_first_idx_is(chans.skip(1), ch, (n - 1) as nat);
    }
}

/// The roster of `ch`: the tokens of its entry, or empty without one.
pub open spec fn roster_of(chans: Seq<ChannelEntryView>, ch: Seq<u8>) -> Seq<usize> {
    if first_idx(chans, ch) < chans.len() {
        chans[first_idx(chans, ch) as int].subs
    } else {
        Seq::<usize>::empty()
    }
}

/// One `Subscribe{ch}` from `t`: append `t` to the channel's roster,
/// creating the entry if absent.
pub open spec fn subscribe_one(chans: Seq<ChannelEntryView>, ch: Seq<u8>, t: usize) -> Seq<
    ChannelEntryView,
> {
    let i = first_idx(chans, ch);
    if i < chans.len() {
        chans.update(
            i as int,
            ChannelEntryView { name: chans[i as int].name, subs: chans[i as int].subs.push(t) },
        )
    } else {
        chans.push(ChannelEntryView { name: ch, subs: seq![t] })
    }
}

/// A batch of subscriptions from `t`, in order.
pub open spec fn subscribe_all(chans: Seq<ChannelEntryView>, cs: Seq<Seq<u8>>, t: usize) -> Seq<
    ChannelEntryView,
>
    decreases cs.len(),
{
    if cs.len() == 0 {
        chans
    } else {
        subscribe_all(subscribe_one(chans, cs[0], t), cs.skip(1), t)
    }
}

/// Subscribing to one more channel applies one more step.
pub proof fn lemma_subscribe_all_snoc(
    chans: Seq<ChannelEntryView>,
    cs: Seq<Seq<u8>>,
    c: Seq<u8>,
    t: usize,
)
    ensures
        subscribe_all(chans, cs.push(c), t) == subscribe_one(subscribe_all(chans, cs, t), c, t),
    decreases cs.len(),
{
    if cs.len() == 0 {
        assert(cs.push(c)[0] == c);
        assert(cs.push(c).skip(1) =~= Seq::<Seq<u8>>::empty());
        assert(subscribe_all(subscribe_one(chans, c, t), Seq::<Seq<u8>>::empty(), t)
            == subscribe_one(chans, c, t));
        assert(subscribe_all(chans, Seq::<Seq<u8>>::empty(), t) == chans);
    } else {
        assert(cs.push(c)[0] == cs[0]);
        assert(cs.push(c).skip(1) =~= cs.skip(1).push(c));
        lemma_subscribe_all_snoc(subscribe_one(chans, cs[0], t), cs.skip(1), c, t);
    }
}

/// `s` with every occurrence of `t` removed, order kept.
pub open spec fn remove_tok(s: Seq<usize>, t: usize) -> Seq<usize>
    decreases s.len(),
{
    if s.len() == 0 {
        Seq::<usize>::empty()
    } else if s[0] == t {
        remove_tok(s.skip(1), t)
    } else {
        seq![s[0]] + remove_tok(s.skip(1), t)
    }
}

/// Removing from one more element.
pub proof fn lemma_remove_tok_snoc(s: Seq<usize>, t: usize, x: usize)
    ensures
        remove_tok(s.push(x), t) == remove_tok(s, t) + (if x == t {
            Seq::<usize>::empty()
        } else {
            seq![x]
        }),
    decreases s.len(),
{
    let tailval: Seq<usize> = if x == t { Seq::<usize>::empty() } else { seq![x] };
    if s.len() == 0 {
        assert(s.push(x).len() == 1);
        assert(s.push(x)[0] == x);
        assert(s.push(x).skip(1) =~= Seq::<usize>::empty());
        assert(remove_tok(Seq::<usize>::empty(), t) == Seq::<usize>::empty());
        assert(remove_tok(s, t) + tailval =~= tailval);
        if x == t {
            assert(remove_tok(s.push(x), t) =~= tailval);
        } else {
            assert(remove_tok(s.push(x), t) =~= tailval);
        }
    } else {
        assert(s.push(x)[0] == s[0]);
        assert(s.push(x).skip(1) =~= s.skip(1).push(x));
        lemma_remove_tok_snoc(s.skip(1), t, x);
        if s[0] == t {
        } else {
            assert(remove_tok(s.push(x), t) =~= remove_tok(s, t) + tailval);
        }
    }
}

/// Nothing equal to `t` survives `remove_tok`.
pub proof fn lemma_remove_tok_gone(s: Seq<usize>, t: usize)
    ensures
        forall|j: int| 0 <= j < remove_tok(s, t).len() ==> remove_tok(s, t)[j] != t,
    decreases s.len(),
{
    if s.len() > 0 {
        lemma_remove_tok_gone(s.skip(1), t);
        if s[0] != t {
            assert forall|j: int| 0 <= j < remove_tok(s, t).len() implies remove_tok(s, t)[j]
                != t by {
                assert(remove_tok(s, t) == seq![s[0]] + remove_tok(s.skip(1), t));
                if j > 0 {
                    assert(remove_tok(s, t)[j] == remove_tok(s.skip(1), t)[j - 1]);
                } else {
                    assert(remove_tok(s, t)[0] == s[0]);
                }
            }
        } else {
            assert(remove_tok(s, t) == remove_tok(s.skip(1), t));
            assert forall|j: int| 0 <= j < remove_tok(s, t).len() implies remove_tok(s, t)[j]
                != t by {
                assert(remove_tok(s, t)[j] == remove_tok(s.skip(1), t)[j]);
            }
        }
    }
}

/// The whole roster map after `t` leaves: every entry keeps its name, every
/// roster drops `t`.
pub open spec fn unsub_chans(chans: Seq<ChannelEntryView>, t: usize) -> Seq<ChannelEntryView> {
    chans.map_values(
        |e: ChannelEntryView| ChannelEntryView { name: e.name, subs: remove_tok(e.subs, t) },
    )
}

// ---------------------------------------------------------------------------
// Fan-out
// ---------------------------------------------------------------------------

/// One token receives the frame on its write buffer, if its connection is
/// live; a gone token's message is dropped.
pub open spec fn deliver_step(cm: Map<usize, ConnectionView>, t: usize, frame: Seq<u8>) -> Map<
    usize,
    ConnectionView,
> {
    if cm.contains_key(t) {
        cm.insert(
            t,
            ConnectionView {
                readable: cm[t].readable,
                writable: cm[t].writable,
                inbuf: cm[t].inbuf,
                outbuf: cm[t].outbuf + frame,
            },
        )
    } else {
        cm
    }
}

/// Every token of the roster receives the frame, in roster order; duplicate
/// tokens receive it twice.
pub open spec fn deliver_one(cm: Map<usize, ConnectionView>, roster: Seq<usize>, frame: Seq<u8>) -> Map<
    usize,
    ConnectionView,
>
    decreases roster.len(),
{
    if roster.len() == 0 {
        cm
    } else {
        deliver_one(deliver_step(cm, roster[0], frame), roster.skip(1), frame)
    }
}

proof fn lemma_deliver_one_snoc(cm: Map<usize, ConnectionView>, roster: Seq<usize>, t: usize, frame: Seq<u8>)
    ensures
        deliver_one(cm, roster.push(t), frame) == deliver_step(
            deliver_one(cm, roster, frame),
            t,
            frame,
        ),
    decreases roster.len(),
{
    if roster.len() == 0 {
        assert(roster.push(t)[0] == t);
        assert(roster.push(t).skip(1) =~= Seq::<usize>::empty());
        assert(deliver_one(deliver_step(cm, t, frame), Seq::<usize>::empty(), frame)
            == deliver_step(cm, t, frame));
    } else {
        assert(roster.push(t)[0] == roster[0]);
        assert(roster.push(t).skip(1) =~= roster.skip(1).push(t));
        lemma_deliver_one_snoc(deliver_step(cm, roster[0], frame), roster.skip(1), t, frame);
    }
}

/// Every message reaches the roster of its channel, in order.
pub open spec fn fanout(
    cm: Map<usize, ConnectionView>,
    chans: Seq<ChannelEntryView>,
    ms: Seq<PubMessageView>,
) -> Map<usize, ConnectionView>
    decreases ms.len(),
{
    if ms.len() == 0 {
        cm
    } else {
        fanout(
            deliver_one(cm, roster_of(chans, ms[0].channel), pub_frame(ms[0])),
            chans,
            ms.skip(1),
        )
    }
}

proof fn lemma_fanout_snoc(
    cm: Map<usize, ConnectionView>,
    chans: Seq<ChannelEntryView>,
    ms: Seq<PubMessageView>,
    m: PubMessageView,
)
    ensures
        fanout(cm, chans, ms.push(m)) == deliver_one(
            fanout(cm, chans, ms),
            roster_of(chans, m.channel),
            pub_frame(m),
        ),
    decreases ms.len(),
{
    if ms.len() == 0 {
        assert(ms.push(m)[0] == m);
        assert(ms.push(m).skip(1) =~= Seq::<PubMessageView>::empty());
        let d = deliver_one(cm, roster_of(chans, m.channel), pub_frame(m));
        assert(fanout(d, chans, Seq::<PubMessageView>::empty()) == d);
        assert(fanout(cm, chans, ms) == cm);
    } else {
        assert(ms.push(m)[0] == ms[0]);
        assert(ms.push(m).skip(1) =~= ms.skip(1).push(m));
        lemma_fanout_snoc(
            deliver_one(cm, roster_of(chans, ms[0].channel), pub_frame(ms[0])),
            chans,
            ms.skip(1),
            m,
        );
    }
}

/// A delivery to a roster that does not hold `t` leaves `t`'s connection as
/// it was.
proof fn lemma_deliver_one_other(
    cm: Map<usize, ConnectionView>,
    roster: Seq<usize>,
    frame: Seq<u8>,
    t: usize,
)
    requires
        !roster.contains(t),
    ensures
        deliver_one(cm, roster, frame).contains_key(t) == cm.contains_key(t),
        cm.contains_key(t) ==> deliver_one(cm, roster, frame)[t] == cm[t],
    decreases roster.len(),
{
    if roster.len() > 0 {
        assert(roster[0] != t);
        let cm1 = deliver_step(cm, roster[0], frame);
        assert(cm1.contains_key(t) == cm.contains_key(t));
        assert(cm.contains_key(t) ==> cm1[t] == cm[t]);
        assert forall|k: int| 0 <= k < roster.skip(1).len() implies roster.skip(1)[k] != t by {
            assert(roster.skip(1)[k] == roster[k + 1]);
        }
        assert(!roster.skip(1).contains(t));
        lemma_deliver_one_other(cm1, roster.skip(1), frame, t);
    }
}

/// LAW: a subscriber whose channels are never published to gets no writes:
/// if `t` stands in no roster of any published message's channel, its
/// connection comes out of the fan-out exactly as it went in.
pub proof fn lemma_no_foreign_writes(
    cm: Map<usize, ConnectionView>,
    chans: Seq<ChannelEntryView>,
    ms: Seq<PubMessageView>,
    t: usize,
)
    requires
        forall|k: int| 0 <= k < ms.len() ==> !roster_of(chans, #[trigger] ms[k].channel).contains(t),
    ensures
        fanout(cm, chans, ms).contains_key(t) == cm.contains_key(t),
        cm.contains_key(t) ==> fanout(cm, chans, ms)[t] == cm[t],
    decreases ms.len(),
{
    if ms.len() > 0 {
        assert(!roster_of(chans, ms[0].channel).contains(t));
        let cm1 = deliver_one(cm, roster_of(chans, ms[0].channel), pub_frame(ms[0]));
        lemma_deliver_one_other(cm, roster_of(chans, ms[0].channel), pub_frame(ms[0]), t);
        assert(forall|k: int|
            0 <= k < ms.skip(1).len() ==> ms.skip(1)[k] == ms[k + 1]);
        lemma_no_foreign_writes(cm1, chans, ms.skip(1), t);
    }
}

/// LAW: a message published to a channel with no roster entry (or an empty
/// one) is silently discarded: the fan-out of that one message changes
/// nothing.
pub proof fn lemma_discard_no_subscribers(
    cm: Map<usize, ConnectionView>,
    chans: Seq<ChannelEntryView>,
    m: PubMessageView,
)
    requires
        roster_of(chans, m.channel).len() == 0,
    ensures
        fanout(cm, chans, seq![m]) == cm,
{
    assert(seq![m].len() == 1);
    assert(seq![m][0] == m);
    assert(seq![m].skip(1) =~= Seq::<PubMessageView>::empty());
    assert(deliver_one(cm, roster_of(chans, m.channel), pub_frame(m)) == cm);
    assert(fanout(cm, chans, seq![m].skip(1)) == fanout(cm, chans, Seq::<PubMessageView>::empty()));
}

/// The live tokens of one roster, in roster order: those are the tokens
/// whose write buffers one delivery touches.
pub open spec fn drain_order_one(cm: Map<usize, ConnectionView>, roster: Seq<usize>) -> Seq<usize>
    decreases roster.len(),
{
    if roster.len() == 0 {
        Seq::<usize>::empty()
    } else {
        (if cm.contains_key(roster[0]) {
            seq![roster[0]]
        } else {
            Seq::<usize>::empty()
        }) + drain_order_one(cm, roster.skip(1))
    }
}

proof fn lemma_drain_order_one_snoc(cm: Map<usize, ConnectionView>, roster: Seq<usize>, t: usize)
    ensures
        drain_order_one(cm, roster.push(t)) == drain_order_one(cm, roster) + (if cm.contains_key(
            t,
        ) {
            seq![t]
        } else {
            Seq::<usize>::empty()
        }),
    decreases roster.len(),
{
    let tailval: Seq<usize> = if cm.contains_key(t) { seq![t] } else { Seq::<usize>::empty() };
    if roster.len() == 0 {
        assert(roster.push(t).len() == 1);
        assert(roster.push(t)[0] == t);
        assert(roster.push(t).skip(1) =~= Seq::<usize>::empty());
        assert(drain_order_one(cm, Seq::<usize>::empty()) == Seq::<usize>::empty());
        assert(drain_order_one(cm, roster.push(t)) =~= tailval);
        assert(drain_order_one(cm, roster) + tailval =~= tailval);
    } else {
        assert(roster.push(t)[0] == roster[0]);
        assert(roster.push(t).skip(1) =~= roster.skip(1).push(t));
        lemma_drain_order_one_snoc(cm, roster.skip(1), t);
        assert(drain_order_one(cm, roster.push(t)) =~= drain_order_one(cm, roster) + tailval);
    }
}

/// The tokens that receive deliveries, message by message, in delivery
/// order. Liveness is judged against one fixed connection map: a fan-out
/// never changes which tokens are live.
pub open spec fn drain_order(
    cm: Map<usize, ConnectionView>,
    chans: Seq<ChannelEntryView>,
    ms: Seq<PubMessageView>,
) -> Seq<usize>
    decreases ms.len(),
{
    if ms.len() == 0 {
        Seq::<usize>::empty()
    } else {
        drain_order_one(cm, roster_of(chans, ms[0].channel)) + drain_order(cm, chans, ms.skip(1))
    }
}

proof fn lemma_drain_order_snoc(
    cm: Map<usize, ConnectionView>,
    chans: Seq<ChannelEntryView>,
    ms: Seq<PubMessageView>,
    m: PubMessageView,
)
    ensures
        drain_order(cm, chans, ms.push(m)) == drain_order(cm, chans, ms) + drain_order_one(
            cm,
            roster_of(chans, m.channel),
        ),
    decreases ms.len(),
{
    if ms.len() == 0 {
        assert(ms.push(m).len() == 1);
        assert(ms.push(m)[0] == m);
        assert(ms.push(m).skip(1) =~= Seq::<PubMessageView>::empty());
        assert(drain_order(cm, chans, Seq::<PubMessageView>::empty()) == Seq::<usize>::empty());
        assert(drain_order(cm, chans, ms.push(m)) =~= drain_order_one(
            cm,
            roster_of(chans, m.channel),
        ));
        assert(drain_order(cm, chans, ms) + drain_order_one(cm, roster_of(chans, m.channel))
            =~= drain_order_one(cm, roster_of(chans, m.channel)));
    } else {
        assert(ms.push(m)[0] == ms[0]);
        assert(ms.push(m).skip(1) =~= ms.skip(1).push(m));
        lemma_drain_order_snoc(cm, chans, ms.skip(1), m);
        assert(drain_order(cm, chans, ms.push(m)) =~= drain_order(cm, chans, ms)
            + drain_order_one(cm, roster_of(chans, m.channel)));
    }
}

/// What one read step produced for the embedder.
pub enum SubStep {
    /// Frames were decoded (possibly none); keep reading while readable.
    Progress,
    /// The read would block; wait for the next event.
    Yield,
    /// The peer is gone: the connection was dropped and unsubscribed.
    Closed,
}

/// The subscriber worker.
pub struct Subscriber {
    pub connections: HashMap<usize, Connection>,
    pub channels: Vec<ChannelEntry>,
    pub message_buffer: bytes::BytesMut,
}

impl Subscriber {
    /// INVARIANT: every token in any roster has a live connection here.
    pub open spec fn wf(self) -> bool {
        forall|i: int, j: int|
            0 <= i < self.chans().len() && 0 <= j < self.chans()[i].subs.len()
                ==> self.connections@.contains_key(#[trigger] self.chans()[i].subs[j])
    }

    /// The channel list, as values.
    pub open spec fn chans(self) -> Seq<ChannelEntryView> {
        chans_view(self.channels@)
    }

    /// The bytes drained from the broadcast and not yet decoded.
    pub open spec fn mbuf(self) -> Seq<u8> {
        bm_contents(self.message_buffer)
    }

    /// A new worker with no connections and no channels.
    pub fn new() -> (r: Self)
        ensures
            r.connections@ == Map::<usize, Connection>::empty(),
            r.chans() == Seq::<ChannelEntryView>::empty(),
            r.mbuf() == Seq::<u8>::empty(),
            r.wf(),
    {
        let r = Subscriber {
            connections: HashMap::new(),
            channels: Vec::new(),
            message_buffer: bm_with_capacity(BUFFER_SIZE),
        };
        proof {
            assert(r.chans() =~= Seq::<ChannelEntryView>::empty());
        }
        r
    }

    /// A newly accepted socket: store a fresh connection under its token.
    pub fn add_connection(&mut self, token: usize)
        ensures
            final(self).connections@.dom() == old(self).connections@.dom().insert(token),
            final(self).connections@[token]@.readable == false,
            final(self).connections@[token]@.writable == false,
            final(self).connections@[token]@.inbuf == Seq::<u8>::empty(),
            final(self).connections@[token]@.outbuf == Seq::<u8>::empty(),
            forall|t: usize|
                t != token && old(self).connections@.contains_key(t)
                    ==> final(self).connections@.contains_key(t)
                    && final(self).connections@[t] == old(self).connections@[t],
            final(self).chans() == old(self).chans(),
            final(self).mbuf() == old(self).mbuf(),
            old(self).wf() ==> final(self).wf(),
    {
        let conn = Connection::new();
        self.connections.insert(token, conn);
        proof {
            assert(final(self).connections@.dom() =~= old(self).connections@.dom().insert(
                token,
            ));
        }
    }

    /// Is this token one of ours?
    pub fn has_connection(&self, token: usize) -> (b: bool)
        ensures
            b == self.connections@.contains_key(token),
    {
        self.connections.contains_key(&token)
    }

    /// Routes a readiness event to the connection's flags.
    pub fn connection_react(&mut self, token: usize, readable: bool, writable: bool)
        requires
            old(self).connections@.contains_key(token),
        ensures
            final(self).connections@.dom() == old(self).connections@.dom(),
            final(self).connections@[token]@.readable == (old(self).connections@[token]@.readable
                || readable),
            final(self).connections@[token]@.writable == (old(self).connections@[token]@.writable
                || writable),
            final(self).connections@[token]@.inbuf == old(self).connections@[token]@.inbuf,
            final(self).connections@[token]@.outbuf == old(self).connections@[token]@.outbuf,
            forall|t: usize|
                t != token && old(self).connections@.contains_key(t)
                    ==> final(self).connections@.contains_key(t)
                    && final(self).connections@[t] == old(self).connections@[t],
            final(self).chans() == old(self).chans(),
            final(self).mbuf() == old(self).mbuf(),
            old(self).wf() ==> final(self).wf(),
    {
        let mut conn = self.connections.remove(&token).unwrap();
        conn.react(readable, writable);
        self.connections.insert(token, conn);
        proof {
            assert(self.connections@.dom() =~= old(self).connections@.dom());
            if old(self).wf() {
                assert forall|i: int, j: int|
                    0 <= i < self.chans().len() && 0 <= j
                        < self.chans()[i].subs.len() implies self.connections@.contains_key(
                    #[trigger] self.chans()[i].subs[j],
                ) by {
                    assert(old(self).connections@.contains_key(old(self).chans()[i].subs[j]));
                }
            }
        }
    }

    /// May a read be attempted on this connection?
    pub fn conn_readable(&self, token: usize) -> (b: bool)
        requires
            self.connections@.contains_key(token),
        ensures
            b == self.connections@[token]@.readable,
    {
        let conn = self.connections.get(&token).unwrap();
        conn.wants_read()
    }

    /// Should a write be attempted on this connection?
    pub fn conn_wants_write(&self, token: usize) -> (b: bool)
        requires
            self.connections@.contains_key(token),
        ensures
            b == (self.connections@[token]@.writable && self.connections@[token]@.outbuf.len()
                > 0),
    {
        let conn = self.connections.get(&token).unwrap();
        conn.wants_write()
    }

    /// The connection's queued outbound bytes, for the embedder to write.
    pub fn conn_pending(&self, token: usize) -> (r: Vec<u8>)
        requires
            self.connections@.contains_key(token),
        ensures
            r@ == self.connections@[token]@.outbuf,
    {
        let conn = self.connections.get(&token).unwrap();
        conn.pending()
    }

    /// The roster of a channel, as the embedder or a test sees it.
    pub fn roster(&self, channel: &Vec<u8>) -> (r: Vec<usize>)
        ensures
            r@ == roster_of(self.chans(), channel@),
    {
        proof {
            lemma_first_idx(self.chans(), channel@);
        }
        let n = self.channels.len();
        let mut i: usize = 0;
        while i < n
            invariant
                i <= n,
                n == self.channels@.len(),
                forall|j: int| 0 <= j < i ==> chans_view(self.channels@)[j].name != channel@,
            decreases n - i,
        {
            if bytes_eq(&self.channels[i].name, channel) {
                proof {
                    lemma_first_idx_is(self.chans(), channel@, i as nat);
                }
                let entry = &self.channels[i];
                let mut out: Vec<usize> = Vec::new();
                let mut j: usize = 0;
                while j < entry.subs.len()
                    invariant
                        j <= entry.subs@.len(),
                        out@ == entry.subs@.take(j as int),
                    decreases entry.subs@.len() - j,
                {
                    out.push(entry.subs[j]);
                    proof {
                        assert(entry.subs@.take(j + 1) =~= entry.subs@.take(j as int).push(
                            entry.subs@[j as int],
                        ));
                    }
                    j += 1;
                }
                proof {
                    assert(entry.subs@.take(entry.subs@.len() as int) =~= entry.subs@);
                }
                return out;
            }
            i += 1;
        }
        proof {
            lemma_first_idx_is(self.chans(), channel@, n as nat);
        }
        Vec::new()
    }
}

/// Everything `remove_tok` keeps was already there.
proof fn lemma_remove_tok_subset(s: Seq<usize>, t: usize)
    ensures
        forall|j: int|
            0 <= j < remove_tok(s, t).len() ==> s.contains(#[trigger] remove_tok(s, t)[j]),
    decreases s.len(),
{
    if s.len() > 0 {
        lemma_remove_tok_subset(s.skip(1), t);
        assert forall|j: int| 0 <= j < remove_tok(s, t).len() implies s.contains(
            #[trigger] remove_tok(s, t)[j],
        ) by {
            if s[0] == t {
                assert(remove_tok(s, t)[j] == remove_tok(s.skip(1), t)[j]);
                let k = choose|k: int|
                    0 <= k < s.skip(1).len() && s.skip(1)[k] == remove_tok(s.skip(1), t)[j];
                assert(s[k + 1] == remove_tok(s, t)[j]);
            } else {
                if j == 0 {
                    assert(remove_tok(s, t)[0] == s[0]);
                } else {
                    assert(remove_tok(s, t)[j] == remove_tok(s.skip(1), t)[j - 1]);
                    let k = choose|k: int|
                        0 <= k < s.skip(1).len() && s.skip(1)[k] == remove_tok(s.skip(1), t)[j
                            - 1];
                    assert(s[k + 1] == remove_tok(s, t)[j]);
                }
            }
        }
    }
}

impl Subscriber {
    /// Appends `token` to the roster of `channel`, creating the entry if
    /// absent. Duplicates are kept, as the wire protocol's behaviour is.
    fn subscribe_channel(&mut self, channel: &Vec<u8>, token: usize)
        requires
            old(self).connections@.contains_key(token),
            old(self).wf(),
        ensures
            final(self).chans() == subscribe_one(old(self).chans(), channel@, token),
            final(self).connections@ == old(self).connections@,
            final(self).mbuf() == old(self).mbuf(),
            final(self).wf(),
    {
        proof {
            lemma_first_idx(self.chans(), channel@);
        }
        let n = self.channels.len();
        let mut i: usize = 0;
        while i < n
            invariant
                i <= n,
                n == self.channels@.len(),
                self.channels@ == old(self).channels@,
                self.connections@ == old(self).connections@,
                old(self).connections@.contains_key(token),
                old(self).wf(),
                bm_contents(self.message_buffer) == old(self).mbuf(),
                forall|j: int| 0 <= j < i ==> chans_view(self.channels@)[j].name != channel@,
            decreases n - i,
        {
            if bytes_eq(&self.channels[i].name, channel) {
                proof {
                    lemma_first_idx_is(chans_view(self.channels@), channel@, i as nat);
                }
                let mut entry = self.channels.remove(i);
                entry.subs.push(token);
                self.channels.insert(i, entry);
                proof {
                    assert(self.channels@ =~= old(self).channels@.update(i as int, entry));
                    assert(chans_view(self.channels@) =~= subscribe_one(
                        chans_view(old(self).channels@),
                        channel@,
                        token,
                    ));
                    assert(self.connections@ == old(self).connections@);
                    assert(self.connections@.contains_key(token));
                    assert forall|a: int, b: int|
                        0 <= a < chans_view(old(self).channels@).len() && 0 <= b < chans_view(
                            old(self).channels@,
                        )[a].subs.len() implies self.connections@.contains_key(
                        #[trigger] chans_view(old(self).channels@)[a].subs[b],
                    ) by {
                        assert(old(self).connections@.contains_key(old(self).chans()[a].subs[b]));
                    }
                    lemma_wf_after_subscribe_one(
                        chans_view(old(self).channels@),
                        self.connections@,
                        channel@,
                        token,
                    );
                }
                return ;
            }
            i += 1;
        }
        proof {
            lemma_first_idx_is(chans_view(self.channels@), channel@, n as nat);
        }
        let name = clone_bytes(channel);
        let mut subs: Vec<usize> = Vec::new();
        subs.push(token);
        self.channels.push(ChannelEntry { name, subs });
        proof {
            assert(chans_view(self.channels@) =~= subscribe_one(
                chans_view(old(self).channels@),
                channel@,
                token,
            ));
            assert(self.connections@ == old(self).connections@);
            assert(self.connections@.contains_key(token));
            assert forall|a: int, b: int|
                0 <= a < chans_view(old(self).channels@).len() && 0 <= b < chans_view(
                    old(self).channels@,
                )[a].subs.len() implies self.connections@.contains_key(
                #[trigger] chans_view(old(self).channels@)[a].subs[b],
            ) by {
                assert(old(self).connections@.contains_key(old(self).chans()[a].subs[b]));
            }
            lemma_wf_after_subscribe_one(
                chans_view(old(self).channels@),
                self.connections@,
                channel@,
                token,
            );
        }
    }

    /// Sweeps `token` out of every roster.
    fn unsubscribe(&mut self, token: usize)
        ensures
            final(self).chans() == unsub_chans(old(self).chans(), token),
            final(self).connections@ == old(self).connections@,
            final(self).mbuf() == old(self).mbuf(),
            forall|i: int, j: int|
                0 <= i < final(self).chans().len() && 0 <= j < final(self).chans()[i].subs.len() ==> final(self).chans()[i].subs[j] != token,
    {
        let n = self.channels.len();
        let mut i: usize = 0;
        while i < n
            invariant
                i <= n,
                n == self.channels@.len(),
                n == old(self).channels@.len(),
                self.connections@ == old(self).connections@,
                bm_contents(self.message_buffer) == old(self).mbuf(),
                forall|j: int|
                    i <= j < n ==> chans_view(self.channels@)[j] == chans_view(
                        old(self).channels@,
                    )[j],
                forall|j: int|
                    0 <= j < i ==> chans_view(self.channels@)[j] == unsub_chans(
                        chans_view(old(self).channels@),
                        token,
                    )[j],
            decreases n - i,
        {
            let ghost pre = self.channels@;
            let mut entry = self.channels.remove(i);
            let ghost subs0 = entry.subs@;
            let mut nsubs: Vec<usize> = Vec::new();
            let mut k: usize = 0;
            proof {
                assert(subs0.take(0) =~= Seq::<usize>::empty());
            }
            while k < entry.subs.len()
                invariant
                    k <= entry.subs@.len(),
                    subs0 == entry.subs@,
                    nsubs@ == remove_tok(subs0.take(k as int), token),
                decreases entry.subs@.len() - k,
            {
                let x = entry.subs[k];
                proof {
                    lemma_remove_tok_snoc(subs0.take(k as int), token, x);
                    assert(subs0.take(k + 1) =~= subs0.take(k as int).push(x));
                }
                if x != token {
                    nsubs.push(x);
                    proof {
                        assert(nsubs@ =~= remove_tok(subs0.take(k as int), token) + seq![x]);
                    }
                } else {
                    proof {
                        assert(remove_tok(subs0.take(k + 1), token) =~= remove_tok(
                            subs0.take(k as int),
                            token,
                        ));
                    }
                }
                k += 1;
            }
            proof {
                assert(subs0.take(subs0.len() as int) =~= subs0);
            }
            entry.subs = nsubs;
            self.channels.insert(i, entry);
            proof {
                assert(self.channels@ =~= pre.update(i as int, entry));
                assert forall|j: int| 0 <= j < i + 1 implies chans_view(self.channels@)[j]
                    == unsub_chans(chans_view(old(self).channels@), token)[j] by {
                    if j < i {
                        assert(self.channels@[j] == pre[j]);
                        assert(chans_view(self.channels@)[j] == chans_view(pre)[j]);
                    } else {
                        assert(chans_view(self.channels@)[i as int] == entry@);
                        assert(unsub_chans(chans_view(old(self).channels@), token).len()
                            == chans_view(old(self).channels@).len());
                        assert(chans_view(pre)[i as int] == chans_view(old(self).channels@)[i as int]);
                        assert(entry@.name == chans_view(old(self).channels@)[i as int].name);
                        assert(entry@.subs == remove_tok(
                            chans_view(old(self).channels@)[i as int].subs,
                            token,
                        ));
                        assert(unsub_chans(chans_view(old(self).channels@), token)[i as int]
                            == ChannelEntryView {
                            name: chans_view(old(self).channels@)[i as int].name,
                            subs: remove_tok(
                                chans_view(old(self).channels@)[i as int].subs,
                                token,
                            ),
                        });
                    }
                }
            }
            i += 1;
        }
        proof {
            assert(unsub_chans(chans_view(old(self).channels@), token).len() == chans_view(
                old(self).channels@,
            ).len());
            assert(chans_view(self.channels@) =~= unsub_chans(
                chans_view(old(self).channels@),
                token,
            ));
            assert forall|a: int, b: int|
                0 <= a < self.chans().len() && 0 <= b
                    < self.chans()[a].subs.len() implies self.chans()[a].subs[b] != token by {
                lemma_remove_tok_gone(chans_view(old(self).channels@)[a].subs, token);
                assert(self.chans()[a].subs == remove_tok(
                    chans_view(old(self).channels@)[a].subs,
                    token,
                ));
            }
        }
    }

    /// Takes the result of one non-blocking read: decoded `Subscribe`
    /// requests join the roster in order; a gone peer is dropped and swept
    /// from every roster.
    pub fn on_read(&mut self, token: usize, outcome: ReadOutcome) -> (r: SubStep)
        requires
            old(self).wf(),
            old(self).connections@.contains_key(token),
            old(self).connections@[token]@.readable,
        ensures
            final(self).wf(),
            final(self).mbuf() == old(self).mbuf(),
            (match outcome {
                ReadOutcome::Data(d) => {
                    let s0 = old(self).connections@[token]@.inbuf + d@;
                    let cs = drain_sub(s0).0;
                    &&& r is Progress
                    &&& final(self).connections@.dom() == old(self).connections@.dom()
                    &&& final(self).connections@[token]@.inbuf == drain_sub(s0).1
                    &&& final(self).connections@[token]@.outbuf == old(self).connections@[token]@.outbuf
                    &&& final(self).connections@[token]@.readable == old(self).connections@[token]@.readable
                    &&& final(self).connections@[token]@.writable == old(self).connections@[token]@.writable
                    &&& final(self).chans() == subscribe_all(old(self).chans(), cs, token)
                    &&& forall|t: usize|
                        t != token && old(self).connections@.contains_key(t)
                            ==> final(self).connections@.contains_key(t)
                            && final(self).connections@[t] == old(self).connections@[t]
                },
                ReadOutcome::WouldBlock => {
                    &&& r is Yield
                    &&& final(self).connections@.dom() == old(self).connections@.dom()
                    &&& final(self).connections@[token]@.readable == false
                    &&& final(self).connections@[token]@.writable == old(self).connections@[token]@.writable
                    &&& final(self).connections@[token]@.inbuf == old(self).connections@[token]@.inbuf
                    &&& final(self).connections@[token]@.outbuf == old(self).connections@[token]@.outbuf
                    &&& final(self).chans() == old(self).chans()
                    &&& forall|t: usize|
                        t != token && old(self).connections@.contains_key(t)
                            ==> final(self).connections@.contains_key(t)
                            && final(self).connections@[t] == old(self).connections@[t]
                },
                ReadOutcome::Closed => {
                    &&& r is Closed
                    &&& final(self).connections@.dom() == old(self).connections@.dom().remove(
                        token,
                    )
                    &&& final(self).chans() == unsub_chans(old(self).chans(), token)
                    &&& forall|i: int, j: int|
                        0 <= i < final(self).chans().len() && 0 <= j < final(self).chans()[i].subs.len() ==> final(self).chans()[i].subs[j] != token
                    &&& forall|t: usize|
                        t != token && old(self).connections@.contains_key(t)
                            ==> final(self).connections@.contains_key(t)
                            && final(self).connections@[t] == old(self).connections@[t]
                },
            }),
    {
        let mut conn = self.connections.remove(&token).unwrap();
        match conn.recv_sub(outcome) {
            None => {
                self.connections.insert(token, conn);
                proof {
                    assert(self.connections@.dom() =~= old(self).connections@.dom());
                    assert(self.chans() == old(self).chans());
                    assert forall|i: int, j: int|
                        0 <= i < self.chans().len() && 0 <= j
                            < self.chans()[i].subs.len() implies self.connections@.contains_key(
                        #[trigger] self.chans()[i].subs[j],
                    ) by {
                        assert(old(self).connections@.contains_key(old(self).chans()[i].subs[j]));
                    }
                }
                SubStep::Yield
            },
            Some(Err(_)) => {
                self.unsubscribe(token);
                proof {
                    lemma_wf_after_unsub(old(self).chans(), old(self).connections@, token);
                }
                SubStep::Closed
            },
            Some(Ok(v)) => {
                self.connections.insert(token, conn);
                proof {
                    assert(self.connections@.dom() =~= old(self).connections@.dom());
                    assert(self.chans() == old(self).chans());
                    assert forall|i: int, j: int|
                        0 <= i < self.chans().len() && 0 <= j
                            < self.chans()[i].subs.len() implies self.connections@.contains_key(
                        #[trigger] self.chans()[i].subs[j],
                    ) by {
                        assert(old(self).connections@.contains_key(old(self).chans()[i].subs[j]));
                    }
                }
                let ghost cs = v@.map_values(|m: Subscribe| m@);
                let ghost ch0 = self.chans();
                let ghost connsnap = self.connections@;
                let mut i: usize = 0;
                proof {
                    assert(cs.take(0) =~= Seq::<Seq<u8>>::empty());
                }
                while i < v.len()
                    invariant
                        i <= v@.len(),
                        cs == v@.map_values(|m: Subscribe| m@),
                        self.connections@ == connsnap,
                        connsnap.contains_key(token),
                        bm_contents(self.message_buffer) == old(self).mbuf(),
                        self.chans() == subscribe_all(ch0, cs.take(i as int), token),
                        self.wf(),
                    decreases v@.len() - i,
                {
                    proof {
                        lemma_subscribe_all_snoc(ch0, cs.take(i as int), cs[i as int], token);
                        assert(cs.take(i + 1) =~= cs.take(i as int).push(cs[i as int]));
                        assert(v@[i as int]@ == cs[i as int]);
                    }
                    self.subscribe_channel(&v[i].channel, token);
                    i += 1;
                }
                proof {
                    assert(cs.take(v@.len() as int) =~= cs);
                }
                SubStep::Progress
            },
        }
    }

    /// Bytes drained from the broadcast join the message buffer until
    /// `publish_pending` decodes them.
    pub fn on_broadcast(&mut self, blob: &Vec<u8>)
        ensures
            final(self).mbuf() == old(self).mbuf() + blob@,
            final(self).connections@ == old(self).connections@,
            final(self).chans() == old(self).chans(),
            old(self).wf() ==> final(self).wf(),
    {
        bm_extend(&mut self.message_buffer, blob.as_slice());
    }

    /// Feeds one write result to the connection; a failed write drops the
    /// connection and sweeps its token from every roster.
    pub fn on_write(&mut self, token: usize, outcome: WriteOutcome) -> (r: Option<
        Result<usize, ConnClosed>,
    >)
        requires
            old(self).wf(),
            old(self).connections@.contains_key(token),
            old(self).connections@[token]@.writable,
            old(self).connections@[token]@.outbuf.len() > 0,
            outcome matches WriteOutcome::Wrote(n) ==> n <= old(self).connections@[token]@.outbuf.len(),
        ensures
            final(self).wf(),
            final(self).mbuf() == old(self).mbuf(),
            forall|t: usize|
                t != token && old(self).connections@.contains_key(t)
                    ==> final(self).connections@.contains_key(t)
                    && final(self).connections@[t] == old(self).connections@[t],
            (match outcome {
                WriteOutcome::Wrote(n) => {
                    &&& r matches Some(q) && q matches Ok(c) && c == n
                    &&& final(self).connections@.dom() == old(self).connections@.dom()
                    &&& final(self).connections@[token]@.outbuf == old(self).connections@[token]@.outbuf.skip(n as int)
                    &&& final(self).connections@[token]@.inbuf == old(self).connections@[token]@.inbuf
                    &&& final(self).connections@[token]@.readable == old(self).connections@[token]@.readable
                    &&& final(self).connections@[token]@.writable == old(self).connections@[token]@.writable
                    &&& final(self).chans() == old(self).chans()
                },
                WriteOutcome::WouldBlock => {
                    &&& r is None
                    &&& final(self).connections@.dom() == old(self).connections@.dom()
                    &&& final(self).connections@[token]@.writable == false
                    &&& final(self).connections@[token]@.readable == old(self).connections@[token]@.readable
                    &&& final(self).connections@[token]@.inbuf == old(self).connections@[token]@.inbuf
                    &&& final(self).connections@[token]@.outbuf == old(self).connections@[token]@.outbuf
                    &&& final(self).chans() == old(self).chans()
                },
                WriteOutcome::Closed => {
                    &&& r matches Some(q) && q is Err
                    &&& final(self).connections@.dom() == old(self).connections@.dom().remove(
                        token,
                    )
                    &&& final(self).chans() == unsub_chans(old(self).chans(), token)
                    &&& forall|i: int, j: int|
                        0 <= i < final(self).chans().len() && 0 <= j < final(self).chans()[i].subs.len() ==> final(self).chans()[i].subs[j] != token
                },
            }),
    {
        let mut conn = self.connections.remove(&token).unwrap();
        let res = conn.on_write(outcome);
        match res {
            Some(Err(_)) => {
                self.unsubscribe(token);
                proof {
                    lemma_wf_after_unsub(old(self).chans(), old(self).connections@, token);
                }
            },
            _ => {
                self.connections.insert(token, conn);
                proof {
                    assert(self.connections@.dom() =~= old(self).connections@.dom());
                    assert(self.chans() == old(self).chans());
                    assert forall|i: int, j: int|
                        0 <= i < self.chans().len() && 0 <= j
                            < self.chans()[i].subs.len() implies self.connections@.contains_key(
                        #[trigger] self.chans()[i].subs[j],
                    ) by {
                        assert(old(self).connections@.contains_key(old(self).chans()[i].subs[j]));
                    }
                }
            },
        }
        res
    }
}

impl Subscriber {
    /// Decodes every complete `PubMessage` frame in the message buffer, in
    /// order, and appends each message's canonical frame to the write buffer
    /// of every connection in its channel's roster; messages for channels
    /// with no live subscribers are discarded. Stops at the first line that
    /// does not parse. Returns the tokens whose write buffers grew, in
    /// delivery order, for the embedder to drain.
    pub fn publish_pending(&mut self) -> (r: Vec<usize>)
        requires
            old(self).wf(),
        ensures
            final(self).wf(),
            final(self).chans() == old(self).chans(),
            final(self).connections@.dom() == old(self).connections@.dom(),
            final(self).mbuf() == drain_pub(old(self).mbuf()).1,
            conns_view(final(self).connections@) == fanout(
                conns_view(old(self).connections@),
                old(self).chans(),
                drain_pub(old(self).mbuf()).0,
            ),
            r@ == drain_order(
                conns_view(old(self).connections@),
                old(self).chans(),
                drain_pub(old(self).mbuf()).0,
            ),
            forall|k: int| 0 <= k < r@.len() ==> final(self).connections@.contains_key(r@[k]),
    {
        let mut to_drain: Vec<usize> = Vec::new();
        let ghost cm0 = conns_view(old(self).connections@);
        let ghost chv = old(self).chans();
        let ghost mb0 = old(self).mbuf();
        let ghost mut processed = Seq::<PubMessageView>::empty();
        proof {
            assert(fanout(cm0, chv, processed) == cm0);
            assert(processed + drain_pub(mb0).0 =~= drain_pub(mb0).0);
            assert(to_drain@ =~= drain_order(cm0, chv, processed));
            assert(cm0.dom() =~= old(self).connections@.dom());
        }
        loop
            invariant_except_break
                processed + drain_pub(bm_contents(self.message_buffer)).0 == drain_pub(mb0).0,
                drain_pub(bm_contents(self.message_buffer)).1 == drain_pub(mb0).1,
            invariant
                old(self).wf(),
                cm0 == conns_view(old(self).connections@),
                chv == old(self).chans(),
                mb0 == old(self).mbuf(),
                self.channels@ == old(self).channels@,
                self.connections@.dom() == old(self).connections@.dom(),
                conns_view(self.connections@) == fanout(cm0, chv, processed),
                cm0.dom() == old(self).connections@.dom(),
                to_drain@ == drain_order(cm0, chv, processed),
                forall|k: int|
                    0 <= k < to_drain@.len() ==> self.connections@.contains_key(to_drain@[k]),
            ensures
                processed == drain_pub(mb0).0,
                bm_contents(self.message_buffer) == drain_pub(mb0).1,
            decreases bm_contents(self.message_buffer).len(),
        {
            let ghost cur = bm_contents(self.message_buffer);
            proof {
                crate::codec::lemma_first_nl(cur);
            }
            match LineCodec::decode_pub(&mut self.message_buffer) {
                None => {
                    proof {
                        assert(drain_pub(cur).0 =~= Seq::<PubMessageView>::empty());
                        assert(processed + drain_pub(cur).0 =~= processed);
                        assert(bm_contents(self.message_buffer) == drain_pub(cur).1);
                    }
                    break ;
                },
                Some(msg) => {
                    proof {
                        assert(drain_pub(cur).0 == seq![msg@] + drain_pub(
                            bm_contents(self.message_buffer),
                        ).0);
                    }
                    let ghost mbnow = bm_contents(self.message_buffer);
                    let ids = self.roster(&msg.channel);
                    let frame = LineCodec::encode_pub(&msg);
                    let ghost cmb = conns_view(self.connections@);
                    let ghost drained0 = to_drain@;
                    proof {
                        assert(ids@ == roster_of(chv, msg@.channel));
                        assert(deliver_one(cmb, ids@.take(0), frame@) == cmb);
                        assert(ids@.take(0) =~= Seq::<usize>::empty());
                        assert(drained0 + drain_order_one(cm0, ids@.take(0)) =~= drained0);
                    }
                    let mut j: usize = 0;
                    while j < ids.len()
                        invariant
                            j <= ids@.len(),
                            frame@ == pub_frame(msg@),
                            self.channels@ == old(self).channels@,
                            self.connections@.dom() == old(self).connections@.dom(),
                            bm_contents(self.message_buffer) == mbnow,
                            conns_view(self.connections@) == deliver_one(
                                cmb,
                                ids@.take(j as int),
                                frame@,
                            ),
                            cm0.dom() == old(self).connections@.dom(),
                            to_drain@ == drained0 + drain_order_one(cm0, ids@.take(j as int)),
                            forall|k: int|
                                0 <= k < to_drain@.len() ==> self.connections@.contains_key(
                                    to_drain@[k],
                                ),
                        decreases ids@.len() - j,
                    {
                        let t = ids[j];
                        proof {
                            lemma_deliver_one_snoc(cmb, ids@.take(j as int), t, frame@);
                            lemma_drain_order_one_snoc(cm0, ids@.take(j as int), t);
                            assert(ids@.take(j + 1) =~= ids@.take(j as int).push(t));
                            assert(cm0.contains_key(t) == self.connections@.dom().contains(t));
                        }
                        if self.has_connection(t) {
                            let mut c = self.connections.remove(&t).unwrap();
                            c.add_payload(&frame);
                            self.connections.insert(t, c);
                            to_drain.push(t);
                            proof {
                                assert(self.connections@.dom() =~= old(
                                    self,
                                ).connections@.dom());
                                assert(cm0.contains_key(t));
                                assert(to_drain@ =~= drained0 + drain_order_one(
                                    cm0,
                                    ids@.take(j + 1),
                                ));
                                let dprev = deliver_one(cmb, ids@.take(j as int), frame@);
                                assert(conns_view(self.connections@) =~= deliver_step(
                                    dprev,
                                    t,
                                    frame@,
                                ));
                            }
                        } else {
                            proof {
                                let dprev = deliver_one(cmb, ids@.take(j as int), frame@);
                                assert(!dprev.contains_key(t));
                                assert(conns_view(self.connections@) == deliver_step(
                                    dprev,
                                    t,
                                    frame@,
                                ));
                                assert(!cm0.contains_key(t));
                                assert(to_drain@ =~= drained0 + drain_order_one(
                                    cm0,
                                    ids@.take(j + 1),
                                ));
                            }
                        }
                        j += 1;
                    }
                    proof {
                        assert(ids@.take(ids@.len() as int) =~= ids@);
                        lemma_fanout_snoc(cm0, chv, processed, msg@);
                        lemma_drain_order_snoc(cm0, chv, processed, msg@);
                        assert(to_drain@ == drain_order(cm0, chv, processed.push(msg@)));
                        assert(conns_view(self.connections@) == fanout(
                            cm0,
                            chv,
                            processed.push(msg@),
                        ));
                        assert(processed.push(msg@) + drain_pub(
                            bm_contents(self.message_buffer),
                        ).0 =~= processed + (seq![msg@] + drain_pub(
                            bm_contents(self.message_buffer),
                        ).0));
                        processed = processed.push(msg@);
                    }
                },
            }
        }
        proof {
            assert forall|i: int, j: int|
                0 <= i < self.chans().len() && 0 <= j
                    < self.chans()[i].subs.len() implies self.connections@.contains_key(
                #[trigger] self.chans()[i].subs[j],
            ) by {
                assert(old(self).connections@.contains_key(old(self).chans()[i].subs[j]));
            }
        }
        to_drain
    }
}

/// Adding a subscription keeps every roster token live, provided the new
/// token is live.
proof fn lemma_wf_after_subscribe_one(
    chans: Seq<ChannelEntryView>,
    conns: Map<usize, Connection>,
    ch: Seq<u8>,
    t: usize,
)
    requires
        forall|i: int, j: int|
            0 <= i < chans.len() && 0 <= j < chans[i].subs.len() ==> conns.contains_key(
                #[trigger] chans[i].subs[j],
            ),
        conns.contains_key(t),
    ensures
        forall|i: int, j: int|
            0 <= i < subscribe_one(chans, ch, t).len() && 0 <= j < subscribe_one(
                chans,
                ch,
                t,
            )[i].subs.len() ==> conns.contains_key(#[trigger] subscribe_one(chans, ch, t)[i].subs[j]),
{
    let s2 = subscribe_one(chans, ch, t);
    let fi = first_idx(chans, ch);
    assert forall|i: int, j: int|
        0 <= i < s2.len() && 0 <= j < s2[i].subs.len() implies conns.contains_key(
        #[trigger] s2[i].subs[j],
    ) by {
        if fi < chans.len() {
            if i == fi {
                if j < chans[i].subs.len() {
                    assert(s2[i].subs[j] == chans[i].subs[j]);
                } else {
                    assert(s2[i].subs[j] == t);
                }
            } else {
                assert(s2[i] == chans[i]);
            }
        } else {
            if i < chans.len() {
                assert(s2[i] == chans[i]);
            } else {
                assert(s2[i].subs[j] == t);
            }
        }
    }
}

/// After a token is dropped from the map and swept from the rosters, the
/// roster invariant holds again.
proof fn lemma_wf_after_unsub(
    chans: Seq<ChannelEntryView>,
    conns: Map<usize, Connection>,
    token: usize,
)
    requires
        forall|i: int, j: int|
            0 <= i < chans.len() && 0 <= j < chans[i].subs.len() ==> conns.contains_key(
                #[trigger] chans[i].subs[j],
            ),
    ensures
        forall|i: int, j: int|
            0 <= i < unsub_chans(chans, token).len() && 0 <= j < unsub_chans(
                chans,
                token,
            )[i].subs.len() ==> conns.remove(token).contains_key(
                #[trigger] unsub_chans(chans, token)[i].subs[j],
            ),
{
    assert forall|i: int, j: int|
        0 <= i < unsub_chans(chans, token).len() && 0 <= j < unsub_chans(
            chans,
            token,
        )[i].subs.len() implies conns.remove(token).contains_key(
        #[trigger] unsub_chans(chans, token)[i].subs[j],
    ) by {
        let x = unsub_chans(chans, token)[i].subs[j];
        assert(unsub_chans(chans, token)[i].subs == remove_tok(chans[i].subs, token));
        lemma_remove_tok_gone(chans[i].subs, token);
        lemma_remove_tok_subset(chans[i].subs, token);
        assert(chans[i].subs.contains(x));
        let k = choose|k: int| 0 <= k < chans[i].subs.len() && chans[i].subs[k] == x;
        assert(conns.contains_key(chans[i].subs[k]));
        assert(x != token);
    }
}

/// A fresh copy of a byte vector.
fn clone_bytes(v: &Vec<u8>) -> (r: Vec<u8>)
    ensures
        r@ == v@,
{
    let mut out: Vec<u8> = Vec::new();
    let mut i: usize = 0;
    while i < v.len()
        invariant
            i <= v@.len(),
            out@ == v@.take(i as int),
        decreases v@.len() - i,
    {
        out.push(v[i]);
        proof {
            assert(v@.take(i + 1) =~= v@.take(i as int).push(v@[i as int]));
        }
        i += 1;
    }
    proof {
        assert(v@.take(v@.len() as int) =~= v@);
    }
    out
}

/// Byte-wise equality of two byte vectors.
fn bytes_eq(a: &Vec<u8>, b: &Vec<u8>) -> (r: bool)
    ensures
        r == (a@ == b@),
{
    if a.len() != b.len() {
        proof {
            assert(a@.len() != b@.len());
        }
        return false;
    }
    let mut i: usize = 0;
    while i < a.len()
        invariant
            i <= a@.len(),
            a@.len() == b@.len(),
            forall|j: int| 0 <= j < i ==> a@[j] == b@[j],
        decreases a@.len() - i,
    {
        if a[i] != b[i] {
            return false;
        }
        i += 1;
    }
    proof {
        assert(a@ =~= b@);
    }
    true
}

} // verus!
