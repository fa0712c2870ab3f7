//! The decisions of one end of a connection once the handshake is done:
//! what to do with a received segment, with a request of the application
//! and with a retransmission timeout.
//!
//! The connection keeps a send buffer of the segments sent but not yet
//! acknowledged, which it retransmits on timeout, and a receive buffer of
//! segments that arrived out of order, which it delivers to the application
//! once the segments before them have arrived.
//!
//! Each operation is a function from the state and an event to the next
//! state and what is to be sent; the code around it performs the sending.

use std::collections::BTreeMap;
use vstd::prelude::*;
use vstd::std_specs::iter::IteratorSpec;
use crate::segment::{Kind, Segment, SegmentView, segment_of_kind};

pub mod laws;
pub mod reorder;

verus! {

broadcast use vstd::std_specs::btree::group_btree_axioms;

/// The largest payload of one segment.
pub const MAXIMUM_SEGMENT_SIZE: u32 = 500;

/// The most segments the receive buffer keeps.
pub const MAXIMUM_RECV_BUFFER_SIZE: usize = 10;

/// The retransmission timeout, in milliseconds.
pub const RETRANSMISSION_TIMER_MILLIS: u64 = 100;

/// What the connection hands to the application.
#[derive(Debug)]
pub enum PeerAction {
    Data(Vec<u8>),
    Eof,
}

/// The mathematical content of a [`PeerAction`].
pub enum PeerActionView {
    Data(Seq<u8>),
    Eof,
}

impl View for PeerAction {
    type V = PeerActionView;

    open spec fn view(&self) -> PeerActionView {
        match self {
            PeerAction::Data(d) => PeerActionView::Data(d@),
            PeerAction::Eof => PeerActionView::Eof,
        }
    }
}

impl PeerActionView {
    /// The bytes the application reads for this action: the data, or
    /// nothing at the end of the stream.
    pub open spec fn bytes(self) -> Seq<u8> {
        match self {
            PeerActionView::Data(d) => d,
            PeerActionView::Eof => Seq::empty(),
        }
    }
}

/// What the application asks of the connection.
#[derive(Debug)]
pub enum UserAction {
    SendData(Vec<u8>),
    Shutdown,
    Close,
    Accept,
}

/// The mathematical content of a [`UserAction`].
pub enum UserActionView {
    SendData(Seq<u8>),
    Shutdown,
    Close,
    Accept,
}

impl View for UserAction {
    type V = UserActionView;

    open spec fn view(&self) -> UserActionView {
        match self {
            UserAction::SendData(d) => UserActionView::SendData(d@),
            UserAction::Shutdown => UserActionView::Shutdown,
            UserAction::Close => UserActionView::Close,
            UserAction::Accept => UserActionView::Accept,
        }
    }
}

/// What to do with the retransmission timer.
#[derive(PartialEq, Eq, Structural, Debug, Copy, Clone)]
pub enum TimerAction {
    /// Start it: wait the retransmission timeout.
    Start,
    /// Stop it: wait forever.
    Stop,
    /// Leave it as it is.
    Keep,
}

/// What a received segment leaves to do once its data is delivered.
#[derive(PartialEq, Eq, Structural, Debug, Copy, Clone)]
pub struct Incoming {
    pub ack_num: u32,
    pub ack_needed: bool,
}

/// The state of a connection.
pub struct ConnectionView {
    pub timer_running: bool,
    /// The last received segment left segments waiting for an
    /// acknowledgement: the timer is to be started afresh.
    pub restart_pending: bool,
    pub send_next: u32,
    pub receive_next: u32,
    pub fin_sent: bool,
    pub fin_received: bool,
    pub send_buffer: Seq<SegmentView>,
    pub recv_buffer: Map<u32, SegmentView>,
}

/// The state of one end of a connection.
pub struct Connection {
    timer_running: bool,
    restart_pending: bool,
    send_next: u32,
    receive_next: u32,
    fin_sent: bool,
    fin_received: bool,
    send_buffer: Vec<Segment>,
    recv_buffer: BTreeMap<u32, Segment>,
}

/// The views of a sequence of segments.
pub open spec fn view_seq(s: Seq<Segment>) -> Seq<SegmentView> {
    Seq::new(s.len(), |i: int| s[i]@)
}

/// The views of a map of segments.
pub open spec fn view_map(m: Map<u32, Segment>) -> Map<u32, SegmentView> {
    Map::new(|k: u32| m.contains_key(k), |k: u32| m[k]@)
}

/// The payload length as the 32-bit number the protocol counts with.
pub open spec fn len32(s: SegmentView) -> u32 {
    s.data.len() as u32
}

/// A segment the send buffer may hold: a data segment of at most one
/// maximum segment size, or a FIN without payload.
pub open spec fn sendable(s: SegmentView) -> bool {
    ||| (s.kind() == Some(Kind::Ack) && 0 < s.data.len() <= MAXIMUM_SEGMENT_SIZE)
    ||| (s.kind() == Some(Kind::Fin) && s.data.len() == 0)
}

/// A segment the receive buffer may hold: a FIN, or an ACK with payload.
pub open spec fn bufferable(s: SegmentView) -> bool {
    ||| s.kind() == Some(Kind::Fin)
    ||| (s.kind() == Some(Kind::Ack) && len32(s) > 0)
}

/// The send buffer holds sendable segments that follow each other in the
/// sequence space without gap or overlap, the last one ending at `send_next`.
pub open spec fn send_buffer_ok(buf: Seq<SegmentView>, send_next: u32) -> bool {
    &&& forall|i: int| 0 <= i < buf.len() ==> sendable(#[trigger] buf[i])
    &&& forall|i: int|
        0 <= i < buf.len() - 1 ==> #[trigger] buf[i].seq_num + buf[i].virtual_len() == buf[i + 1].seq_num
    &&& buf.len() > 0 ==> buf.last().seq_num + buf.last().virtual_len() == send_next
}

/// The receive buffer holds at most `MAXIMUM_RECV_BUFFER_SIZE` segments,
/// each under its own sequence number.
pub open spec fn recv_buffer_ok(m: Map<u32, SegmentView>) -> bool {
    &&& m.dom().finite()
    &&& m.len() <= MAXIMUM_RECV_BUFFER_SIZE
    &&& forall|k: u32| #[trigger] m.contains_key(k) ==> m[k].seq_num == k
}

impl ConnectionView {
    /// The invariant every reachable state keeps.
    pub open spec fn wf(self) -> bool {
        &&& send_buffer_ok(self.send_buffer, self.send_next)
        &&& recv_buffer_ok(self.recv_buffer)
    }
}

impl View for Connection {
    type V = ConnectionView;

    closed spec fn view(&self) -> ConnectionView {
        ConnectionView {
            timer_running: self.timer_running,
            restart_pending: self.restart_pending,
            send_next: self.send_next,
            receive_next: self.receive_next,
            fin_sent: self.fin_sent,
            fin_received: self.fin_received,
            send_buffer: view_seq(self.send_buffer@),
            recv_buffer: view_map(self.recv_buffer@),
        }
    }
}

/// The smallest element of a set of numbers.
pub open spec fn min_key(d: Set<u32>) -> u32 {
    choose|k: u32| d.contains(k) && forall|j: u32| d.contains(j) ==> k <= j
}

/// The largest element of a set of numbers.
pub open spec fn max_key(d: Set<u32>) -> u32 {
    choose|k: u32| d.contains(k) && forall|j: u32| d.contains(j) ==> j <= k
}

/// The state after the timer is adjusted to the send buffer: it runs
/// exactly while something waits for an acknowledgement, and it starts
/// afresh when it was not running or when the last received segment left
/// segments waiting.
pub open spec fn timer_spec(v: ConnectionView) -> (ConnectionView, TimerAction) {
    if v.send_buffer.len() == 0 && v.timer_running {
        (ConnectionView { timer_running: false, restart_pending: false, ..v }, TimerAction::Stop)
    } else if v.send_buffer.len() != 0 && (!v.timer_running || v.restart_pending) {
        (ConnectionView { timer_running: true, restart_pending: false, ..v }, TimerAction::Start)
    } else {
        (ConnectionView { restart_pending: false, ..v }, TimerAction::Keep)
    }
}

/// Segments as they are sent again: unchanged but for the acknowledgement
/// number, which is the one the connection expects next.
pub open spec fn refreshed(buf: Seq<SegmentView>, ack_num: u32) -> Seq<SegmentView> {
    Seq::new(buf.len(), |i: int| SegmentView { ack_num, ..buf[i] })
}

/// A pure acknowledgement of what has been received so far.
pub open spec fn ack_spec(v: ConnectionView) -> SegmentView {
    segment_of_kind(Kind::Ack, v.send_next, v.receive_next, Seq::empty())
}

/// The send buffer without the leading segments that `ack_num`
/// acknowledges in full: those whose sequence number plus virtual length is
/// at most `ack_num`.
pub open spec fn remove_acked(buf: Seq<SegmentView>, ack_num: u32) -> Seq<SegmentView>
    decreases buf.len(),
{
    if buf.len() > 0 && ack_num >= buf[0].seq_num + buf[0].virtual_len() {
        remove_acked(buf.subrange(1, buf.len() as int), ack_num)
    } else {
        buf
    }
}

/// The state after an acknowledgement number arrives: the acknowledged
/// segments leave the send buffer.
pub open spec fn acked_spec(v: ConnectionView, ack_num: u32) -> ConnectionView {
    ConnectionView { send_buffer: remove_acked(v.send_buffer, ack_num), ..v }
}

/// The end of handling a received segment, once its data is delivered.
/// The acknowledged segments leave the send buffer. When segments still
/// wait and the segment acknowledged none of them, they are all sent again
/// at once, carrying the current acknowledgement number (fast
/// retransmission); otherwise an acknowledgement is sent when the segment
/// carried data or a FIN. Whenever segments still wait, the timer is to
/// start afresh. The connection keeps running unless both sides have shut
/// down with nothing left unacknowledged, or the application has gone.
/// The result is the next state, the segments to send in order, and
/// whether the connection keeps running.
pub open spec fn complete_spec(v: ConnectionView, inc: Incoming, channel_closed: bool) -> (
    ConnectionView,
    Seq<SegmentView>,
    bool,
) {
    let buf = remove_acked(v.send_buffer, inc.ack_num);
    let v2 = ConnectionView { send_buffer: buf, restart_pending: buf.len() > 0, ..v };
    let out = if buf.len() > 0 && buf.len() == v.send_buffer.len() {
        refreshed(buf, v.receive_next)
    } else if inc.ack_needed {
        seq![ack_spec(v2)]
    } else {
        Seq::empty()
    };
    let shutdown_complete = buf.len() == 0 && v2.fin_sent && v2.fin_received;
    (v2, out, !(shutdown_complete || channel_closed))
}

impl Connection {
    pub closed spec fn wf(&self) -> bool {
        &&& self@.wf()
        &&& self.recv_buffer@.dom().finite()
        &&& self.recv_buffer@.len() == self@.recv_buffer.len()
    }

    /// A connection whose handshake is done, with the next sequence numbers
    /// to send and to receive.
    pub fn new(send_next: u32, receive_next: u32) -> (c: Connection)
        ensures
            c.wf(),
            c@ == (ConnectionView {
                timer_running: false,
                restart_pending: false,
                send_next,
                receive_next,
                fin_sent: false,
                fin_received: false,
                send_buffer: Seq::empty(),
                recv_buffer: Map::empty(),
            }),
    {
        let c = Connection {
            timer_running: false,
            restart_pending: false,
            send_next,
            receive_next,
            fin_sent: false,
            fin_received: false,
            send_buffer: Vec::new(),
            recv_buffer: BTreeMap::new(),
        };
        assert(view_seq(c.send_buffer@) =~= Seq::empty());
        assert(view_map(c.recv_buffer@) =~= Map::empty());
        c
    }

    pub fn send_next(&self) -> (n: u32)
        ensures
            n == self@.send_next,
    {
        self.send_next
    }

    pub fn receive_next(&self) -> (n: u32)
        ensures
            n == self@.receive_next,
    {
        self.receive_next
    }

    pub fn fin_sent(&self) -> (b: bool)
        ensures
            b == self@.fin_sent,
    {
        self.fin_sent
    }

    pub fn fin_received(&self) -> (b: bool)
        ensures
            b == self@.fin_received,
    {
        self.fin_received
    }

    pub fn timer_running(&self) -> (b: bool)
        ensures
            b == self@.timer_running,
    {
        self.timer_running
    }

    pub fn send_buffer_is_empty(&self) -> (b: bool)
        ensures
            b == (self@.send_buffer.len() == 0),
    {
        self.send_buffer.len() == 0
    }

    /// Adjusts the retransmission timer to the send buffer (see
    /// [`timer_spec`]).
    pub fn adjust_timer(&mut self) -> (a: TimerAction)
        requires
            old(self).wf(),
        ensures
            final(self).wf(),
            (final(self)@, a) == timer_spec(old(self)@),
            final(self)@.timer_running == (final(self)@.send_buffer.len() != 0),
    {
        let buffer_is_empty = self.send_buffer.len() == 0;
        let restart = self.restart_pending;
        self.restart_pending = false;
        if buffer_is_empty && self.timer_running {
            self.timer_running = false;
            TimerAction::Stop
        } else if !buffer_is_empty && (!self.timer_running || restart) {
            self.timer_running = true;
            TimerAction::Start
        } else {
            TimerAction::Keep
        }
    }

    /// The acknowledgement of everything received so far.
    pub fn ack_segment(&self) -> (s: Segment)
        ensures
            s@ == ack_spec(self@),
    {
        Segment::new_empty(Kind::Ack, self.send_next, self.receive_next)
    }

    /// On a retransmission timeout: every segment of the send buffer is sent
    /// again, in order, carrying the acknowledgement number expected next.
    pub fn handle_retransmit(&self) -> (segs: Vec<Segment>)
        ensures
            view_seq(segs@) == refreshed(self@.send_buffer, self@.receive_next),
    {
        let mut segs: Vec<Segment> = Vec::new();
        let n = self.send_buffer.len();
        let mut i: usize = 0;
        while i < n
            invariant
                n == self.send_buffer@.len(),
                i <= n,
                segs@.len() == i,
                forall|j: int|
                    0 <= j < i ==> (#[trigger] segs@[j])@ == (SegmentView {
                        ack_num: self.receive_next,
                        ..self.send_buffer@[j]@
                    }),
            decreases n - i,
        {
            segs.push(self.send_buffer[i].set_ack_num(self.receive_next));
            i = i + 1;
        }
        assert(view_seq(segs@) =~= refreshed(view_seq(self.send_buffer@), self.receive_next));
        segs
    }

    /// When the retransmission timer fires: the timer is started afresh for
    /// another retransmission timeout, and the send buffer is sent again
    /// (see [`Connection::handle_retransmit`]). The state does not change.
    pub fn handle_timeout(&self) -> (r: (Vec<Segment>, TimerAction))
        ensures
            r.1 == TimerAction::Start,
            view_seq(r.0@) == refreshed(self@.send_buffer, self@.receive_next),
    {
        let segs = self.handle_retransmit();
        (segs, TimerAction::Start)
    }
}


pub(crate) proof fn lemma_send_buffer_suffix(buf: Seq<SegmentView>, send_next: u32)
    requires
        send_buffer_ok(buf, send_next),
        buf.len() > 0,
    ensures
        send_buffer_ok(buf.subrange(1, buf.len() as int), send_next),
        buf[0].seq_num + buf[0].virtual_len() <= u32::MAX,
{
    let t = buf.subrange(1, buf.len() as int);
    assert forall|i: int| 0 <= i < t.len() - 1 implies #[trigger] t[i].seq_num + t[i].virtual_len()
        == t[i + 1].seq_num by {
        assert(buf[i + 1].seq_num + buf[i + 1].virtual_len() == buf[i + 2].seq_num);
    }
    if buf.len() > 1 {
        assert(buf[0].seq_num + buf[0].virtual_len() == buf[1].seq_num);
    }
}

proof fn lemma_view_seq_remove_first(s: Seq<Segment>)
    requires
        s.len() > 0,
    ensures
        view_seq(s.remove(0)) == view_seq(s).subrange(1, s.len() as int),
{
    assert(view_seq(s.remove(0)) =~= view_seq(s).subrange(1, s.len() as int));
}

impl Connection {
    /// Removes from the send buffer the leading segments that `ack_num`
    /// acknowledges in full.
    pub fn removed_acked_segments(&mut self, ack_num: u32)
        requires
            old(self).wf(),
        ensures
            final(self).wf(),
            final(self)@ == acked_spec(old(self)@, ack_num),
    {
        loop
            invariant
                self.wf(),
                self@ == (ConnectionView { send_buffer: self@.send_buffer, ..old(self)@ }),
                remove_acked(self@.send_buffer, ack_num) == remove_acked(old(self)@.send_buffer, ack_num),
            ensures
                self.wf(),
                self@ == (ConnectionView { send_buffer: self@.send_buffer, ..old(self)@ }),
                remove_acked(old(self)@.send_buffer, ack_num) == self@.send_buffer,
            decreases self.send_buffer@.len(),
        {
            if self.send_buffer.len() == 0 {
                break;
            }
            let ghost buf = self@.send_buffer;
            proof {
                lemma_send_buffer_suffix(buf, self.send_next);
                assert(buf[0] == self.send_buffer@[0]@);
            }
            let first = &self.send_buffer[0];
            let virtual_len: usize = match first.kind() {
                Some(Kind::Fin) => 1,
                _ => first.data().len(),
            };
            if ack_num >= first.seq_num() + virtual_len as u32 {
                proof {
                    lemma_view_seq_remove_first(self.send_buffer@);
                }
                self.send_buffer.remove(0);
            } else {
                break;
            }
        }
    }

    /// Ends the handling of a received segment once its data has been
    /// delivered (see [`complete_spec`]): gives the segments to send, in
    /// order, and whether the connection keeps running.
    pub fn complete_receive(&mut self, incoming: Incoming, channel_closed: bool) -> (r: (
        Vec<Segment>,
        bool,
    ))
        requires
            old(self).wf(),
        ensures
            final(self).wf(),
            final(self)@ == complete_spec(old(self)@, incoming, channel_closed).0,
            view_seq(r.0@) == complete_spec(old(self)@, incoming, channel_closed).1,
            r.1 == complete_spec(old(self)@, incoming, channel_closed).2,
    {
        let waiting_before = self.send_buffer.len();
        self.removed_acked_segments(incoming.ack_num);
        let waiting = self.send_buffer.len();
        self.restart_pending = waiting > 0;
        let out = if waiting > 0 && waiting == waiting_before {
            self.handle_retransmit()
        } else if incoming.ack_needed {
            let mut out: Vec<Segment> = Vec::new();
            out.push(self.ack_segment());
            proof {
                assert(view_seq(out@) =~= seq![ack_spec(self@)]);
            }
            out
        } else {
            let out: Vec<Segment> = Vec::new();
            proof {
                assert(view_seq(out@) =~= Seq::<SegmentView>::empty());
            }
            out
        };
        let shutdown_complete = self.send_buffer.len() == 0 && self.fin_sent && self.fin_received;
        (out, !(shutdown_complete || channel_closed))
    }
}


/// The walk over the keys of a map gives each key once, in increasing
/// order: it is empty exactly when the map is, and otherwise it starts
/// at the smallest key and ends at the largest.
proof fn lemma_key_walk<V>(m: &BTreeMap<u32, V>)
    ensures
        ({
            let walk = vstd::std_specs::btree::spec_keys_iter(m).remaining();
            &&& walk.len() == 0 <==> m@.dom() == Set::<u32>::empty()
            &&& walk.len() > 0 ==> {
                &&& m@.contains_key(*walk[0])
                &&& m@.contains_key(*walk[walk.len() - 1])
                &&& forall|j: u32|
                    m@.contains_key(j) ==> *walk[0] <= j && j <= *walk[walk.len() - 1]
            }
        }),
{
    broadcast use vstd::std_specs::btree::group_btree_axioms;
    broadcast use vstd::laws_cmp::group_laws_cmp;

    let walk = vstd::std_specs::btree::spec_keys_iter(m).remaining();
    let keys = walk.unref();
    assert(vstd::laws_cmp::obeys_cmp::<&u32>());
    assert(keys.to_set() == m@.dom());
    assert forall|i: int, j: int| 0 <= i < j < walk.len() implies keys[i] < keys[j] by {
        assert(vstd::std_specs::cmp::OrdSpec::cmp_spec(&walk[i], &walk[j]) is Less);
    }
    if walk.len() == 0 {
        assert(keys.to_set() =~= Set::<u32>::empty());
    } else {
        let n = walk.len() - 1;
        assert(keys.to_set().contains(keys[0]));
        assert(keys.to_set().contains(keys[n]));
        assert forall|j: u32| m@.contains_key(j) implies keys[0] <= j && j <= keys[n] by {
            assert(keys.to_set().contains(j));
            let i = choose|i: int| 0 <= i < keys.len() && keys[i] == j;
            if i > 0 {
                assert(keys[0] < keys[i]);
            }
            if i < n {
                assert(keys[i] < keys[n]);
            }
        }
    }
}

/// The smallest key of the map, `None` when the map is empty: the first
/// key its ordered walk gives.
fn first_key<V>(m: &BTreeMap<u32, V>) -> (r: Option<u32>)
    ensures
        r is None <==> m@.dom() == Set::<u32>::empty(),
        r matches Some(k) ==> m@.contains_key(k) && forall|j: u32| m@.contains_key(j) ==> k <= j,
{
    broadcast use vstd::std_specs::btree::group_btree_axioms;
    broadcast use vstd::laws_cmp::group_laws_cmp;

    let mut r: Option<u32> = None;
    for k in it: m.keys()
        invariant
            it.seq() == vstd::std_specs::btree::spec_keys_iter(m).remaining(),
            r == (if it.index() == 0 { None::<u32> } else { Some(*it.seq()[0]) }),
    {
        if r.is_none() {
            r = Some(*k);
        }
    }
    proof {
        lemma_key_walk(m);
    }
    r
}

/// The largest key of the map, `None` when the map is empty: the last key
/// its ordered walk gives.
fn last_key<V>(m: &BTreeMap<u32, V>) -> (r: Option<u32>)
    ensures
        r is None <==> m@.dom() == Set::<u32>::empty(),
        r matches Some(k) ==> m@.contains_key(k) && forall|j: u32| m@.contains_key(j) ==> j <= k,
{
    broadcast use vstd::std_specs::btree::group_btree_axioms;
    broadcast use vstd::laws_cmp::group_laws_cmp;

    let mut r: Option<u32> = None;
    for k in it: m.keys()
        invariant
            it.seq() == vstd::std_specs::btree::spec_keys_iter(m).remaining(),
            r == (if it.index() == 0 { None::<u32> } else { Some(*it.seq()[it.index() - 1]) }),
    {
        r = Some(*k);
    }
    proof {
        lemma_key_walk(m);
    }
    r
}

/// The receive buffer after a segment is put in under its sequence number,
/// replacing one with the same number; when that makes the buffer too large,
/// the segment with the largest sequence number leaves it.
pub open spec fn add_recv(m: Map<u32, SegmentView>, s: SegmentView) -> Map<u32, SegmentView> {
    let m2 = m.insert(s.seq_num, s);
    if m2.len() > MAXIMUM_RECV_BUFFER_SIZE {
        m2.remove(max_key(m2.dom()))
    } else {
        m2
    }
}

/// What a connection requires of a received segment (it stops otherwise): it acknowledges
/// nothing that was not sent, it brings nothing new after the peer's FIN,
/// and it is an ACK or a FIN.
pub open spec fn segment_acceptable(v: ConnectionView, s: SegmentView) -> bool {
    &&& s.ack_num <= v.send_next
    &&& v.fin_received ==> s.seq_num <= v.receive_next
    &&& (s.kind() == Some(Kind::Fin) || s.kind() == Some(Kind::Ack))
}

/// The first half of handling a received segment: a pure acknowledgement or
/// a segment older than what is expected next is not buffered, anything
/// else goes to the receive buffer. What remains to do is remembered: the
/// acknowledgement number, and whether the segment must be acknowledged
/// (it carries data or a FIN).
pub open spec fn receive_spec(v: ConnectionView, s: SegmentView) -> (ConnectionView, Incoming) {
    let v2 = if (s.kind() == Some(Kind::Ack) && len32(s) == 0) || s.seq_num < v.receive_next {
        v
    } else {
        ConnectionView { recv_buffer: add_recv(v.recv_buffer, s), ..v }
    };
    (v2, Incoming { ack_num: s.ack_num, ack_needed: len32(s) > 0 || s.kind() == Some(Kind::Fin) })
}

/// What a connection requires when it delivers the first buffered segment
/// (it stops otherwise): it is not older than what is expected next; if it is the one
/// expected next, a FIN carries no payload and comes only once, any other
/// segment is an ACK with payload, and the sequence number it leads to fits
/// in 32 bits.
pub open spec fn delivery_allowed(v: ConnectionView) -> bool {
    v.recv_buffer.dom() != Set::<u32>::empty() ==> {
        let k = min_key(v.recv_buffer.dom());
        let s = v.recv_buffer[k];
        &&& k >= v.receive_next
        &&& k == v.receive_next ==> if s.kind() == Some(Kind::Fin) {
            len32(s) == 0 && !v.fin_received && v.receive_next < u32::MAX
        } else {
            &&& s.kind() == Some(Kind::Ack)
            &&& len32(s) > 0
            &&& v.receive_next + len32(s) <= u32::MAX
        }
    }
}

/// One step of delivering in order: when the buffered segment with the
/// smallest sequence number is the one expected next, it leaves the buffer,
/// the expected sequence number moves past it, and its data (or the end of
/// the stream, for a FIN) goes to the application. Otherwise nothing
/// happens.
pub open spec fn deliver_spec(v: ConnectionView) -> (ConnectionView, Option<PeerActionView>) {
    if v.recv_buffer.dom() == Set::<u32>::empty() {
        (v, None)
    } else {
        let k = min_key(v.recv_buffer.dom());
        let s = v.recv_buffer[k];
        if k == v.receive_next {
            if s.kind() == Some(Kind::Fin) {
                (
                    ConnectionView {
                        fin_received: true,
                        receive_next: (v.receive_next + 1) as u32,
                        recv_buffer: v.recv_buffer.remove(k),
                        ..v
                    },
                    Some(PeerActionView::Eof),
                )
            } else {
                (
                    ConnectionView {
                        receive_next: (v.receive_next + len32(s)) as u32,
                        recv_buffer: v.recv_buffer.remove(k),
                        ..v
                    },
                    Some(PeerActionView::Data(s.data)),
                )
            }
        } else {
            (v, None)
        }
    }
}

pub(crate) proof fn lemma_min_key(d: Set<u32>, k: u32)
    requires
        d.contains(k),
        forall|j: u32| d.contains(j) ==> k <= j,
    ensures
        min_key(d) == k,
{
    let m = min_key(d);
    assert(d.contains(m) && forall|j: u32| d.contains(j) ==> m <= j);
    assert(m <= k && k <= m);
}

pub(crate) proof fn lemma_max_key(d: Set<u32>, k: u32)
    requires
        d.contains(k),
        forall|j: u32| d.contains(j) ==> j <= k,
    ensures
        max_key(d) == k,
{
    let m = max_key(d);
    assert(d.contains(m) && forall|j: u32| d.contains(j) ==> j <= m);
    assert(m <= k && k <= m);
}

proof fn lemma_view_map_insert(m: Map<u32, Segment>, k: u32, s: Segment)
    ensures
        view_map(m.insert(k, s)) == view_map(m).insert(k, s@),
{
    assert(view_map(m.insert(k, s)) =~= view_map(m).insert(k, s@));
}

proof fn lemma_view_map_remove(m: Map<u32, Segment>, k: u32)
    ensures
        view_map(m.remove(k)) == view_map(m).remove(k),
{
    assert(view_map(m.remove(k)) =~= view_map(m).remove(k));
}

proof fn lemma_view_map_dom(m: Map<u32, Segment>)
    ensures
        view_map(m).dom() == m.dom(),
{
    assert(view_map(m).dom() =~= m.dom());
}

impl Connection {
    /// Puts a segment into the receive buffer, dropping the segment with the
    /// largest sequence number when the buffer grows past its maximum size.
    pub fn add_to_recv_buffer(&mut self, segment: Segment)
        requires
            old(self).wf(),
        ensures
            final(self).wf(),
            final(self)@ == (ConnectionView {
                recv_buffer: add_recv(old(self)@.recv_buffer, segment@),
                ..old(self)@
            }),
    {
        let ghost s = segment@;
        let ghost old_raw = self.recv_buffer@;
        let seq_num = segment.seq_num();
        self.recv_buffer.insert(seq_num, segment);
        proof {
            lemma_view_map_insert(old_raw, seq_num, segment);
            lemma_view_map_dom(self.recv_buffer@);
            lemma_view_map_dom(old_raw);
        }
        if self.recv_buffer.len() > MAXIMUM_RECV_BUFFER_SIZE {
            let last = last_key(&self.recv_buffer);
            match last {
                Some(k) => {
                    proof {
                        lemma_max_key(self.recv_buffer@.dom(), k);
                        lemma_view_map_remove(self.recv_buffer@, k);
                    }
                    self.recv_buffer.remove(&k);
                    proof {
                        lemma_view_map_dom(self.recv_buffer@);
                    }
                },
                None => {},
            }
        }
    }

    /// Whether a received segment is one the connection can take (see
    /// [`segment_acceptable`]).
    pub fn segment_acceptable(&self, segment: &Segment) -> (b: bool)
        ensures
            b == segment_acceptable(self@, segment@),
    {
        let kind_ok = match segment.kind() {
            Some(Kind::Fin) => true,
            Some(Kind::Ack) => true,
            _ => false,
        };
        segment.ack_num() <= self.send_next && (!self.fin_received || segment.seq_num()
            <= self.receive_next) && kind_ok
    }

    /// The first half of handling a received segment (see [`receive_spec`]).
    pub fn receive_segment(&mut self, segment: Segment) -> (inc: Incoming)
        requires
            old(self).wf(),
            segment_acceptable(old(self)@, segment@),
        ensures
            final(self).wf(),
            (final(self)@, inc) == receive_spec(old(self)@, segment@),
    {
        let ack_num = segment.ack_num();
        let seq_num = segment.seq_num();
        let len = segment.data().len() as u32;
        let kind = segment.kind();
        let is_fin = match kind {
            Some(Kind::Fin) => true,
            _ => false,
        };
        let pure_ack = match kind {
            Some(Kind::Ack) => len == 0,
            _ => false,
        };
        if pure_ack {
        } else if seq_num < self.receive_next {
        } else {
            self.add_to_recv_buffer(segment);
        }
        Incoming { ack_num, ack_needed: len > 0 || is_fin }
    }

    /// Whether the next delivery step is one the connection allows (see
    /// [`delivery_allowed`]).
    pub fn delivery_allowed(&self) -> (b: bool)
        requires
            self.wf(),
        ensures
            b == delivery_allowed(self@),
    {
        match first_key(&self.recv_buffer) {
            None => {
                proof {
                    lemma_view_map_dom(self.recv_buffer@);
                }
                true
            },
            Some(k) => {
                proof {
                    lemma_view_map_dom(self.recv_buffer@);
                    lemma_min_key(self.recv_buffer@.dom(), k);
                }
                match self.recv_buffer.get(&k) {
                    Some(seg) => {
                        let len = seg.data().len() as u32;
                        if k < self.receive_next {
                            false
                        } else if k > self.receive_next {
                            true
                        } else {
                            match seg.kind() {
                                Some(Kind::Fin) => len == 0 && !self.fin_received
                                    && self.receive_next < u32::MAX,
                                Some(Kind::Ack) => len > 0 && len <= u32::MAX - self.receive_next,
                                _ => false,
                            }
                        }
                    },
                    None => false,
                }
            },
        }
    }

    /// One step of delivering received data in order (see [`deliver_spec`]).
    pub fn deliver_next(&mut self) -> (a: Option<PeerAction>)
        requires
            old(self).wf(),
            delivery_allowed(old(self)@),
        ensures
            final(self).wf(),
            final(self)@ == deliver_spec(old(self)@).0,
            a matches Some(x) ==> deliver_spec(old(self)@).1 == Some(x@),
            a is None ==> deliver_spec(old(self)@).1 is None,
    {
        proof {
            lemma_view_map_dom(self.recv_buffer@);
        }
        match first_key(&self.recv_buffer) {
            None => None,
            Some(k) => {
                proof {
                    lemma_min_key(self.recv_buffer@.dom(), k);
                    lemma_view_map_remove(self.recv_buffer@, k);
                }
                if k == self.receive_next {
                    match self.recv_buffer.remove(&k) {
                        Some(seg) => {
                            proof {
                                lemma_view_map_dom(self.recv_buffer@);
                            }
                            match seg.kind() {
                                Some(Kind::Fin) => {
                                    self.fin_received = true;
                                    self.receive_next = self.receive_next + 1;
                                    Some(PeerAction::Eof)
                                },
                                _ => {
                                    let len = seg.data().len() as u32;
                                    self.receive_next = self.receive_next + len;
                                    Some(PeerAction::Data(seg.to_data()))
                                },
                            }
                        },
                        None => None,
                    }
                } else {
                    None
                }
            },
        }
    }
}


/// The views of an optional user action.
pub open spec fn view_action(a: Option<UserAction>) -> Option<UserActionView> {
    match a {
        Some(x) => Some(x@),
        None => None,
    }
}

/// How many segments `n` bytes of data are cut into.
pub open spec fn chunk_count(n: nat) -> nat {
    ((n + MAXIMUM_SEGMENT_SIZE - 1) / MAXIMUM_SEGMENT_SIZE as int) as nat
}

/// The `i`-th segment that data is cut into: the `i`-th run of
/// `MAXIMUM_SEGMENT_SIZE` bytes (the last one may be shorter), numbered from
/// `start` on in the sequence space.
pub open spec fn chunk_at(start: u32, ack_num: u32, d: Seq<u8>, i: int) -> SegmentView {
    let lo = MAXIMUM_SEGMENT_SIZE * i;
    let hi = if lo + MAXIMUM_SEGMENT_SIZE < d.len() {
        lo + MAXIMUM_SEGMENT_SIZE
    } else {
        d.len() as int
    };
    segment_of_kind(Kind::Ack, (start + lo) as u32, ack_num, d.subrange(lo, hi))
}

/// The segments that data is cut into.
pub open spec fn chunk_segments(start: u32, ack_num: u32, d: Seq<u8>) -> Seq<SegmentView> {
    Seq::new(chunk_count(d.len()), |i: int| chunk_at(start, ack_num, d, i))
}

/// What a connection requires of a request of the application (it stops otherwise): it is
/// not `Accept`, and the sequence numbers it uses up fit in 32 bits.
/// (`None` stands for the application having gone.)
pub open spec fn user_action_acceptable(v: ConnectionView, a: Option<UserActionView>) -> bool {
    match a {
        Some(UserActionView::Accept) => false,
        Some(UserActionView::Shutdown) => v.send_next < u32::MAX,
        Some(UserActionView::SendData(d)) => v.send_next + d.len() <= u32::MAX,
        _ => true,
    }
}

/// Handling a request of the application. A shutdown sends a FIN and keeps
/// it for retransmission; data is cut into segments of at most
/// `MAXIMUM_SEGMENT_SIZE` bytes, which are sent and kept for retransmission;
/// after a close, or when the application has gone, the connection stops.
/// All segments of one write are sent at once: the send buffer has no bound,
/// and nothing waits for earlier segments to be acknowledged first.
/// The result is the next state, the segments to send in order, and whether
/// the connection keeps running.
pub open spec fn user_action_spec(v: ConnectionView, a: Option<UserActionView>) -> (
    ConnectionView,
    Seq<SegmentView>,
    bool,
) {
    match a {
        Some(UserActionView::Shutdown) => {
            let seg = segment_of_kind(Kind::Fin, v.send_next, v.receive_next, Seq::empty());
            (
                ConnectionView {
                    send_next: (v.send_next + 1) as u32,
                    send_buffer: v.send_buffer.push(seg),
                    fin_sent: true,
                    ..v
                },
                seq![seg],
                true,
            )
        },
        Some(UserActionView::SendData(d)) => {
            let segs = chunk_segments(v.send_next, v.receive_next, d);
            (
                ConnectionView {
                    send_next: (v.send_next + d.len()) as u32,
                    send_buffer: v.send_buffer + segs,
                    ..v
                },
                segs,
                true,
            )
        },
        _ => (v, Seq::empty(), false),
    }
}

pub(crate) proof fn lemma_view_seq_push(s: Seq<Segment>, x: Segment)
    ensures
        view_seq(s.push(x)) == view_seq(s).push(x@),
{
    assert(view_seq(s.push(x)) =~= view_seq(s).push(x@));
}

pub(crate) proof fn lemma_send_buffer_push(buf: Seq<SegmentView>, send_next: u32, seg: SegmentView)
    requires
        send_buffer_ok(buf, send_next),
        sendable(seg),
        seg.seq_num == send_next,
        send_next + seg.virtual_len() <= u32::MAX,
    ensures
        send_buffer_ok(buf.push(seg), (send_next + seg.virtual_len()) as u32),
{
    let b = buf.push(seg);
    assert forall|i: int| 0 <= i < b.len() - 1 implies #[trigger] b[i].seq_num + b[i].virtual_len()
        == b[i + 1].seq_num by {
        if i < buf.len() - 1 {
            assert(buf[i].seq_num + buf[i].virtual_len() == buf[i + 1].seq_num);
        }
    }
    assert forall|i: int| 0 <= i < b.len() implies sendable(#[trigger] b[i]) by {
        if i < buf.len() {
            assert(sendable(buf[i]));
        }
    }
}

impl Connection {
    /// Whether a request of the application is one the connection can take
    /// (see [`user_action_acceptable`]).
    pub fn user_action_acceptable(&self, user_action: &Option<UserAction>) -> (b: bool)
        ensures
            b == user_action_acceptable(self@, view_action(*user_action)),
    {
        match user_action {
            Some(UserAction::Accept) => false,
            Some(UserAction::Shutdown) => self.send_next < u32::MAX,
            Some(UserAction::SendData(d)) => d.len() <= (u32::MAX - self.send_next) as usize,
            _ => true,
        }
    }

    /// Handles a request of the application (see [`user_action_spec`]);
    /// `None` stands for the application having gone.
    pub fn handle_received_user_action(&mut self, user_action: Option<UserAction>) -> (r: (
        Vec<Segment>,
        bool,
    ))
        requires
            old(self).wf(),
            user_action_acceptable(old(self)@, view_action(user_action)),
        ensures
            final(self).wf(),
            (final(self)@, view_seq(r.0@), r.1) == user_action_spec(
                old(self)@,
                view_action(user_action),
            ),
    {
        match user_action {
            Some(UserAction::Shutdown) => {
                let seg = Segment::new_empty(Kind::Fin, self.send_next, self.receive_next);
                let mut segs: Vec<Segment> = Vec::new();
                segs.push(seg.copy());
                proof {
                    lemma_view_seq_push(self.send_buffer@, seg);
                    lemma_send_buffer_push(self@.send_buffer, self.send_next, seg@);
                    assert(view_seq(segs@) =~= seq![seg@]);
                }
                self.send_next = self.send_next + 1;
                self.send_buffer.push(seg);
                self.fin_sent = true;
                (segs, true)
            },
            Some(UserAction::SendData(data)) => {
                let segs = self.send_data(data.as_slice());
                (segs, true)
            },
            Some(UserAction::Close) => {
                proof {
                    assert(view_seq(Seq::<Segment>::empty()) =~= Seq::empty());
                }
                (Vec::new(), false)
            },
            Some(UserAction::Accept) => {
                (Vec::new(), false)
            },
            None => {
                proof {
                    assert(view_seq(Seq::<Segment>::empty()) =~= Seq::empty());
                }
                (Vec::new(), false)
            },
        }
    }

    /// Cuts data into segments, keeps them for retransmission and gives them
    /// to send.
    fn send_data(&mut self, data: &[u8]) -> (segs: Vec<Segment>)
        requires
            old(self).wf(),
            old(self)@.send_next + data@.len() <= u32::MAX,
        ensures
            final(self).wf(),
            view_seq(segs@) == chunk_segments(old(self)@.send_next, old(self)@.receive_next, data@),
            final(self)@ == (ConnectionView {
                send_next: (old(self)@.send_next + data@.len()) as u32,
                send_buffer: old(self)@.send_buffer + view_seq(segs@),
                ..old(self)@
            }),
    {
        let ghost start = self.send_next;
        let ghost old_view = self@;
        let n = data.len();
        let mut segs: Vec<Segment> = Vec::new();
        let mut off: usize = 0;
        while off < n
            invariant
                self.wf(),
                n == data@.len(),
                off <= n,
                start == old_view.send_next,
                start + n <= u32::MAX,
                self.send_next == start + off,
                segs@.len() == chunk_count(off as nat),
                off < n ==> off == MAXIMUM_SEGMENT_SIZE * segs@.len(),
                forall|j: int|
                    0 <= j < segs@.len() ==> (#[trigger] segs@[j])@ == chunk_at(
                        start,
                        old_view.receive_next,
                        data@,
                        j,
                    ),
                self@ == (ConnectionView {
                    send_next: self@.send_next,
                    send_buffer: old_view.send_buffer + view_seq(segs@),
                    ..old_view
                }),
            decreases n - off,
        {
            let hi: usize = if n - off > MAXIMUM_SEGMENT_SIZE as usize {
                off + MAXIMUM_SEGMENT_SIZE as usize
            } else {
                n
            };
            let chunk = vstd::slice::slice_subrange(data, off, hi);
            let seg = Segment::with_kind(Kind::Ack, self.send_next, self.receive_next, chunk);
            let c = seg.copy();
            proof {
                assert(seg@ == chunk_at(start, old_view.receive_next, data@, segs@.len() as int));
                lemma_view_seq_push(self.send_buffer@, seg);
                lemma_view_seq_push(segs@, c);
                lemma_send_buffer_push(self@.send_buffer, self.send_next, seg@);
                assert(old_view.send_buffer + view_seq(segs@).push(seg@) =~= (old_view.send_buffer
                    + view_seq(segs@)).push(seg@));
            }
            segs.push(c);
            self.send_buffer.push(seg);
            self.send_next = self.send_next + (hi - off) as u32;
            off = hi;
        }
        assert(view_seq(segs@) =~= chunk_segments(start, old_view.receive_next, data@));
        segs
    }
}


impl Connection {
    /// The invariant of a connection, seen from outside: the send buffer
    /// follows the sequence space up to `send_next`, and the receive buffer
    /// holds at most `MAXIMUM_RECV_BUFFER_SIZE` segments.
    pub proof fn lemma_wf(&self)
        requires
            self.wf(),
        ensures
            self@.wf(),
            self@.recv_buffer.len() <= MAXIMUM_RECV_BUFFER_SIZE,
    {
    }
}


} // verus!
