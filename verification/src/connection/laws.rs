//! Laws of the connection: properties that span several operations or
//! several segments, stated over the specification functions that the
//! operations' contracts use.

use vstd::prelude::*;
use crate::connection::{
    ConnectionView, Incoming, PeerActionView, UserActionView, MAXIMUM_RECV_BUFFER_SIZE,
    MAXIMUM_SEGMENT_SIZE, acked_spec, chunk_count, chunk_segments, complete_spec,
    delivery_allowed, deliver_spec, len32, min_key, receive_spec, recv_buffer_ok, remove_acked,
    segment_acceptable, send_buffer_ok, sendable, user_action_acceptable, user_action_spec,
    lemma_min_key, lemma_send_buffer_push, lemma_send_buffer_suffix, add_recv, max_key,
    lemma_max_key, ack_spec, bufferable,
};
use crate::segment::{Kind, SegmentView, segment_of_kind};

verus! {

/// The payloads of a sequence of segments, one after the other.
pub open spec fn payload(segs: Seq<SegmentView>) -> Seq<u8>
    decreases segs.len(),
{
    if segs.len() == 0 {
        Seq::empty()
    } else {
        segs[0].data + payload(segs.subrange(1, segs.len() as int))
    }
}

/// Data written by the application is cut into data segments that carry
/// at most `MAXIMUM_SEGMENT_SIZE` bytes each, follow each other in the
/// sequence space from `start` on, and whose payloads, put together, are
/// exactly the data.
pub proof fn lemma_chunks_cover(start: u32, ack_num: u32, d: Seq<u8>)
    requires
        start + d.len() <= u32::MAX,
    ensures
        payload(chunk_segments(start, ack_num, d)) == d,
        forall|i: int|
            0 <= i < chunk_count(d.len()) ==> {
                let c = #[trigger] chunk_segments(start, ack_num, d)[i];
                &&& c.kind() == Some(Kind::Ack)
                &&& 0 < c.data.len() <= MAXIMUM_SEGMENT_SIZE
                &&& c.seq_num == start + MAXIMUM_SEGMENT_SIZE * i
                &&& c.ack_num == ack_num
            },
    decreases d.len(),
{
    let c = chunk_segments(start, ack_num, d);
    let n = d.len() as int;
    assert forall|i: int| 0 <= i < chunk_count(d.len()) implies {
        let x = #[trigger] chunk_segments(start, ack_num, d)[i];
        &&& x.kind() == Some(Kind::Ack)
        &&& 0 < x.data.len() <= MAXIMUM_SEGMENT_SIZE
        &&& x.seq_num == start + MAXIMUM_SEGMENT_SIZE * i
        &&& x.ack_num == ack_num
    } by {
        assert(MAXIMUM_SEGMENT_SIZE * i < n);
    }
    if n == 0 {
        assert(c.len() == 0);
    } else if n <= MAXIMUM_SEGMENT_SIZE {
        assert(c.len() == 1);
        assert(c[0].data =~= d);
        assert(c.subrange(1, 1) =~= Seq::<SegmentView>::empty());
        assert(payload(c) == c[0].data + payload(c.subrange(1, 1)));
        assert(c[0].data + Seq::<u8>::empty() =~= d);
    } else {
        let m = MAXIMUM_SEGMENT_SIZE as int;
        let rest = d.subrange(m, n);
        let start2 = (start + m) as u32;
        lemma_chunks_cover(start2, ack_num, rest);
        lemma_chunks_split(start, ack_num, d);
        assert(c[0].data =~= d.subrange(0, m));
        assert(d.subrange(0, m) + rest =~= d);
    }
}

/// Once everything sent is acknowledged (the acknowledgement number is the
/// next sequence number to send), the send buffer is empty.
pub proof fn lemma_full_ack_empties(buf: Seq<SegmentView>, send_next: u32)
    requires
        send_buffer_ok(buf, send_next),
    ensures
        remove_acked(buf, send_next) == Seq::<SegmentView>::empty(),
    decreases buf.len(),
{
    if buf.len() > 0 {
        lemma_send_buffer_suffix(buf, send_next);
        lemma_segment_ends_within(buf, send_next, 0);
        lemma_full_ack_empties(buf.subrange(1, buf.len() as int), send_next);
    } else {
        assert(buf =~= Seq::<SegmentView>::empty());
    }
}

/// Each segment of a well-formed send buffer ends at or before `send_next`.
proof fn lemma_segment_ends_within(buf: Seq<SegmentView>, send_next: u32, i: int)
    requires
        send_buffer_ok(buf, send_next),
        0 <= i < buf.len(),
    ensures
        buf[i].seq_num + buf[i].virtual_len() <= send_next,
    decreases buf.len() - i,
{
    if i < buf.len() - 1 {
        assert(buf[i].seq_num + buf[i].virtual_len() == buf[i + 1].seq_num);
        lemma_segment_ends_within(buf, send_next, i + 1);
        assert(sendable(buf[i + 1]));
    }
}

/// An acknowledgement removes only segments it covers in full, from the
/// front of the send buffer; what stays is the rest of the buffer in order,
/// and its first segment is not covered in full.
pub proof fn lemma_ack_removes_prefix(buf: Seq<SegmentView>, ack_num: u32)
    ensures
        ({
            let r = remove_acked(buf, ack_num);
            &&& r.len() <= buf.len()
            &&& r == buf.subrange(buf.len() - r.len(), buf.len() as int)
            &&& forall|i: int| 0 <= i < buf.len() - r.len() ==> ack_num >= #[trigger] buf[i].seq_num
                + buf[i].virtual_len()
            &&& r.len() > 0 ==> ack_num < r[0].seq_num + r[0].virtual_len()
        }),
    decreases buf.len(),
{
    if buf.len() > 0 && ack_num >= buf[0].seq_num + buf[0].virtual_len() {
        let t = buf.subrange(1, buf.len() as int);
        lemma_ack_removes_prefix(t, ack_num);
        let r = remove_acked(t, ack_num);
        assert(t.subrange(t.len() - r.len(), t.len() as int) =~= buf.subrange(
            buf.len() - r.len(),
            buf.len() as int,
        ));
        assert forall|i: int| 0 <= i < buf.len() - r.len() implies ack_num >= #[trigger] buf[i].seq_num
            + buf[i].virtual_len() by {
            if i > 0 {
                assert(buf[i] == t[i - 1]);
            }
        }
    } else {
        assert(buf.subrange(0, buf.len() as int) =~= buf);
    }
}

/// A segment older than the one expected next (a duplicate of something
/// already delivered) leaves the state unchanged.
pub proof fn lemma_old_segment_ignored(v: ConnectionView, s: SegmentView)
    requires
        s.seq_num < v.receive_next,
    ensures
        receive_spec(v, s).0 == v,
{
}

/// Data reaches the application in order: what one delivery step hands over
/// is the payload of the buffered segment that starts exactly at the next
/// expected sequence number, and the expected number moves past it.
pub proof fn lemma_delivery_in_order(v: ConnectionView)
    requires
        v.wf(),
        delivery_allowed(v),
    ensures
        deliver_spec(v).1 matches Some(PeerActionView::Data(d)) ==> {
            &&& v.recv_buffer.contains_key(v.receive_next)
            &&& v.recv_buffer[v.receive_next].data == d
            &&& deliver_spec(v).0.receive_next == v.receive_next + len32(v.recv_buffer[v.receive_next])
            &&& !deliver_spec(v).0.recv_buffer.contains_key(v.receive_next)
        },
        deliver_spec(v).1 matches Some(PeerActionView::Eof) ==> {
            &&& v.recv_buffer.contains_key(v.receive_next)
            &&& v.recv_buffer[v.receive_next].kind() == Some(Kind::Fin)
            &&& deliver_spec(v).0.fin_received
            &&& deliver_spec(v).0.receive_next == v.receive_next + 1
        },
        deliver_spec(v).1 is None ==> deliver_spec(v).0 == v,
{
    if v.recv_buffer.dom() != Set::<u32>::empty() {
        lemma_finite_set_has_min(v.recv_buffer.dom());
    }
}

pub(crate) proof fn lemma_finite_set_has_min(d: Set<u32>)
    requires
        d.finite(),
        d != Set::<u32>::empty(),
    ensures
        d.contains(min_key(d)),
        forall|j: u32| d.contains(j) ==> min_key(d) <= j,
    decreases d.len(),
{
    let x = d.choose();
    assert(d.contains(x)) by {
        if !d.contains(x) {
            assert(d =~= Set::<u32>::empty());
        }
    }
    let r = d.remove(x);
    if r == Set::<u32>::empty() {
        assert forall|j: u32| d.contains(j) implies x <= j by {
            if j != x {
                assert(r.contains(j));
            }
        }
        lemma_min_key(d, x);
    } else {
        lemma_finite_set_has_min(r);
        let m = min_key(r);
        if x < m {
            assert forall|j: u32| d.contains(j) implies x <= j by {
                if j != x {
                    assert(r.contains(j));
                }
            }
            lemma_min_key(d, x);
        } else {
            assert forall|j: u32| d.contains(j) implies m <= j by {
                if j != x {
                    assert(r.contains(j));
                }
            }
            lemma_min_key(d, m);
        }
    }
}

/// Delivery steps repeated until one delivers nothing (at most `fuel`
/// steps): the state after them and the bytes the application got.
pub open spec fn drain(v: ConnectionView, fuel: nat) -> (ConnectionView, Seq<u8>)
    decreases fuel,
{
    if fuel == 0 {
        (v, Seq::empty())
    } else {
        let (v2, a) = deliver_spec(v);
        match a {
            None => (v, Seq::empty()),
            Some(x) => {
                let (v3, rest) = drain(v2, (fuel - 1) as nat);
                (v3, x.bytes() + rest)
            },
        }
    }
}

/// Everything the connection does with one received segment: it takes it
/// in, delivers what has become deliverable (the receive buffer never holds
/// more than `MAXIMUM_RECV_BUFFER_SIZE` segments, so that many steps and
/// one more suffice) and completes the handling. The result is the next
/// state, the bytes delivered, the segments to send and whether the
/// connection keeps running.
pub open spec fn segment_step(v: ConnectionView, s: SegmentView) -> (
    ConnectionView,
    Seq<u8>,
    Seq<SegmentView>,
    bool,
) {
    let (v1, inc) = receive_spec(v, s);
    let (v2, bytes) = drain(v1, (MAXIMUM_RECV_BUFFER_SIZE + 1) as nat);
    let (v3, ack, keep) = complete_spec(v2, inc, false);
    (v3, bytes, ack, keep)
}

/// Segments received one after the other: the final state and all the bytes
/// delivered.
pub open spec fn receive_all(v: ConnectionView, segs: Seq<SegmentView>) -> (ConnectionView, Seq<u8>)
    decreases segs.len(),
{
    if segs.len() == 0 {
        (v, Seq::empty())
    } else {
        let (v1, bytes, _, _) = segment_step(v, segs[0]);
        let (v2, rest) = receive_all(v1, segs.subrange(1, segs.len() as int));
        (v2, bytes + rest)
    }
}

pub(crate) proof fn lemma_remove_acked_ok(buf: Seq<SegmentView>, send_next: u32, ack_num: u32)
    requires
        send_buffer_ok(buf, send_next),
    ensures
        send_buffer_ok(remove_acked(buf, ack_num), send_next),
    decreases buf.len(),
{
    if buf.len() > 0 && ack_num >= buf[0].seq_num + buf[0].virtual_len() {
        lemma_send_buffer_suffix(buf, send_next);
        lemma_remove_acked_ok(buf.subrange(1, buf.len() as int), send_next, ack_num);
    }
}

/// One data segment that arrives in order, with nothing else buffered, is
/// taken, delivered whole and acknowledged; afterwards nothing is buffered
/// and the next expected sequence number is past it.
pub proof fn lemma_in_order_segment(v: ConnectionView, s: SegmentView)
    requires
        v.wf(),
        v.recv_buffer.dom() == Set::<u32>::empty(),
        s.kind() == Some(Kind::Ack),
        0 < s.data.len() <= MAXIMUM_SEGMENT_SIZE,
        s.seq_num == v.receive_next,
        s.ack_num <= v.send_next,
        v.receive_next + s.data.len() <= u32::MAX,
    ensures
        segment_acceptable(v, s),
        delivery_allowed(receive_spec(v, s).0),
        delivery_allowed(deliver_spec(receive_spec(v, s).0).0),
        ({
            let (v3, bytes, ack, keep) = segment_step(v, s);
            &&& v3.wf()
            &&& bytes == s.data
            &&& v3.receive_next == v.receive_next + s.data.len()
            &&& v3.recv_buffer.dom() == Set::<u32>::empty()
            &&& v3.send_next == v.send_next
            &&& v3.fin_received == v.fin_received
            &&& v3.send_buffer == remove_acked(v.send_buffer, s.ack_num)
            &&& remove_acked(v.send_buffer, s.ack_num).len() == 0 ==> ack == seq![
                segment_of_kind(Kind::Ack, v.send_next, v3.receive_next, Seq::empty()),
            ]
        }),
{
    let (v1, inc) = receive_spec(v, s);
    let m = v.recv_buffer.insert(s.seq_num, s);
    assert(m.dom() =~= set![s.seq_num]);
    assert(m.len() == 1);
    assert(v1.recv_buffer == m);
    lemma_min_key(m.dom(), s.seq_num);
    let (v2, a) = deliver_spec(v1);
    assert(v2.recv_buffer.dom() =~= Set::<u32>::empty());
    assert(a == Some(PeerActionView::Data(s.data)));
    reveal_with_fuel(drain, 3);
    let (d2, bytes) = drain(v1, (MAXIMUM_RECV_BUFFER_SIZE + 1) as nat);
    assert(deliver_spec(v2).1 is None);
    assert(drain(v2, MAXIMUM_RECV_BUFFER_SIZE as nat) == (v2, Seq::<u8>::empty()));
    assert(d2 == v2);
    assert(bytes =~= s.data);
    lemma_remove_acked_ok(v2.send_buffer, v2.send_next, inc.ack_num);
    assert(recv_buffer_ok(v2.recv_buffer)) by {
        assert(v2.recv_buffer.dom().finite());
    }
}

/// What one side cuts its data into, received by the other side in order,
/// reaches the application there exactly as it was written: when the
/// sender's next sequence number is the receiver's next expected one and
/// its acknowledgement number acknowledges nothing the receiver has not
/// sent, the receiver delivers the data unchanged and then expects the
/// sequence number after it.
pub proof fn lemma_in_order_transfer(v: ConnectionView, ack_num: u32, d: Seq<u8>)
    requires
        v.wf(),
        v.recv_buffer.dom() == Set::<u32>::empty(),
        ack_num <= v.send_next,
        v.receive_next + d.len() <= u32::MAX,
    ensures
        receive_all(v, chunk_segments(v.receive_next, ack_num, d)).1 == d,
        receive_all(v, chunk_segments(v.receive_next, ack_num, d)).0.receive_next == v.receive_next
            + d.len(),
        receive_all(v, chunk_segments(v.receive_next, ack_num, d)).0.recv_buffer.dom() == Set::<
            u32,
        >::empty(),
    decreases d.len(),
{
    let start = v.receive_next;
    let segs = chunk_segments(start, ack_num, d);
    lemma_chunks_cover(start, ack_num, d);
    if d.len() == 0 {
        assert(segs.len() == 0);
        assert(d =~= Seq::<u8>::empty());
    } else {
        let c0 = segs[0];
        lemma_in_order_segment(v, c0);
        let (v1, bytes, _, _) = segment_step(v, c0);
        let tail = segs.subrange(1, segs.len() as int);
        assert(receive_all(v, segs) == (receive_all(v1, tail).0, bytes + receive_all(v1, tail).1));
        let n = d.len() as int;
        let m = MAXIMUM_SEGMENT_SIZE as int;
        if n <= m {
            assert(segs.len() == 1);
            assert(tail =~= Seq::<SegmentView>::empty());
            assert(receive_all(v1, tail) == (v1, Seq::<u8>::empty()));
            assert(c0.data =~= d);
            assert(bytes + Seq::<u8>::empty() =~= d);
        } else {
            let rest = d.subrange(m, n);
            lemma_chunks_split(start, ack_num, d);
            assert(v1.receive_next == start + m);
            lemma_in_order_transfer(v1, ack_num, rest);
            assert(c0.data =~= d.subrange(0, m));
            assert(d.subrange(0, m) + rest =~= d);
        }
    }
}

/// Data longer than one segment is cut into its first segment followed by
/// what the rest of the data is cut into.
proof fn lemma_chunks_split(start: u32, ack_num: u32, d: Seq<u8>)
    requires
        d.len() > MAXIMUM_SEGMENT_SIZE,
        start + d.len() <= u32::MAX,
    ensures
        chunk_segments(start, ack_num, d).subrange(1, chunk_segments(start, ack_num, d).len() as int)
            == chunk_segments(
            (start + MAXIMUM_SEGMENT_SIZE) as u32,
            ack_num,
            d.subrange(MAXIMUM_SEGMENT_SIZE as int, d.len() as int),
        ),
{
    let m = MAXIMUM_SEGMENT_SIZE as int;
    let n = d.len() as int;
    let c = chunk_segments(start, ack_num, d);
    let rest = d.subrange(m, n);
    let c2 = chunk_segments((start + m) as u32, ack_num, rest);
    assert(chunk_count(rest.len()) + 1 == chunk_count(d.len()));
    assert forall|i: int| 0 <= i < c2.len() implies #[trigger] c.subrange(1, c.len() as int)[i]
        == c2[i] by {
        assert(d.subrange(m * (i + 1), if m * (i + 1) + m < n {
            m * (i + 1) + m
        } else {
            n
        }) =~= rest.subrange(m * i, if m * i + m < rest.len() {
            m * i + m
        } else {
            rest.len() as int
        }));
    }
    assert(c.subrange(1, c.len() as int) =~= c2);
}


/// A data segment or a FIN that arrives ahead of the one expected next
/// waits in the receive buffer; nothing is delivered.
proof fn lemma_early_segment_waits(v: ConnectionView, s2: SegmentView)
    requires
        v.wf(),
        v.recv_buffer.dom() == Set::<u32>::empty(),
        !v.fin_received,
        (s2.kind() == Some(Kind::Ack) && 0 < s2.data.len() <= MAXIMUM_SEGMENT_SIZE) || (s2.kind()
            == Some(Kind::Fin) && s2.data.len() == 0),
        s2.seq_num > v.receive_next,
        s2.ack_num <= v.send_next,
    ensures
        segment_acceptable(v, s2),
        delivery_allowed(receive_spec(v, s2).0),
        ({
            let (b, bytes, _, _) = segment_step(v, s2);
            &&& b.wf()
            &&& bytes == Seq::<u8>::empty()
            &&& b.recv_buffer == v.recv_buffer.insert(s2.seq_num, s2)
            &&& b.receive_next == v.receive_next
            &&& b.send_next == v.send_next
            &&& b.fin_received == v.fin_received
        }),
{
    let k2 = s2.seq_num;
    let (a1, inc1) = receive_spec(v, s2);
    let m1 = v.recv_buffer.insert(k2, s2);
    assert(m1.dom() =~= set![k2]);
    assert(a1.recv_buffer == m1);
    lemma_min_key(m1.dom(), k2);
    assert(deliver_spec(a1).1 is None);
    reveal_with_fuel(drain, 2);
    lemma_remove_acked_ok(a1.send_buffer, a1.send_next, inc1.ack_num);
}

/// A delivery step when the segment expected next is buffered, has the
/// smallest key, and is a data segment: it is handed over and the expected
/// sequence number moves past it.
pub(crate) proof fn lemma_deliver_data(v: ConnectionView)
    requires
        v.recv_buffer.contains_key(v.receive_next),
        forall|j: u32| v.recv_buffer.contains_key(j) ==> v.receive_next <= j,
        v.recv_buffer[v.receive_next].kind() != Some(Kind::Fin),
    ensures
        deliver_spec(v) == (
            ConnectionView {
                receive_next: (v.receive_next + len32(v.recv_buffer[v.receive_next])) as u32,
                recv_buffer: v.recv_buffer.remove(v.receive_next),
                ..v
            },
            Some(PeerActionView::Data(v.recv_buffer[v.receive_next].data)),
        ),
{
    lemma_min_key(v.recv_buffer.dom(), v.receive_next);
}

pub(crate) proof fn lemma_drain_some(v: ConnectionView, fuel: nat)
    requires
        deliver_spec(v).1 is Some,
    ensures
        drain(v, fuel + 1) == (
            drain(deliver_spec(v).0, fuel).0,
            deliver_spec(v).1.unwrap().bytes() + drain(deliver_spec(v).0, fuel).1,
        ),
{
}

pub(crate) proof fn lemma_drain_none(v: ConnectionView, fuel: nat)
    requires
        deliver_spec(v).1 is None,
    ensures
        drain(v, fuel) == (v, Seq::<u8>::empty()),
{
}

proof fn lemma_two_keys(m1: Map<u32, SegmentView>, r: u32, k2: u32, s1: SegmentView, s2: SegmentView)
    requires
        m1 == Map::<u32, SegmentView>::empty().insert(k2, s2),
        r < k2,
    ensures
        m1.insert(r, s1).len() == 2,
        m1.insert(r, s1).dom().finite(),
        m1.insert(r, s1).remove(r) == m1,
        m1.dom().finite(),
        m1.remove(k2).dom() == Set::<u32>::empty(),
{
    let m2 = m1.insert(r, s1);
    assert(m1.dom() =~= set![k2]);
    assert(m2.dom() =~= set![k2].insert(r));
    assert(set![k2].insert(r).len() == set![k2].len() + 1);
    assert(m2.remove(r) =~= m1);
    assert(m1.remove(k2).dom() =~= Set::<u32>::empty());
}

/// The segment expected next arrives while the one after it waits in the
/// receive buffer: both are delivered, in order, and the buffer empties.
proof fn lemma_gap_filled(b: ConnectionView, s1: SegmentView, s2: SegmentView)
    requires
        b.wf(),
        !b.fin_received,
        s1.kind() == Some(Kind::Ack),
        s2.kind() == Some(Kind::Ack),
        0 < s1.data.len() <= MAXIMUM_SEGMENT_SIZE,
        0 < s2.data.len() <= MAXIMUM_SEGMENT_SIZE,
        s1.seq_num == b.receive_next,
        s2.seq_num == b.receive_next + s1.data.len(),
        b.recv_buffer == Map::<u32, SegmentView>::empty().insert(s2.seq_num, s2),
        s1.ack_num <= b.send_next,
        b.receive_next + s1.data.len() + s2.data.len() <= u32::MAX,
    ensures
        segment_acceptable(b, s1),
        ({
            let (e, bytes, _, _) = segment_step(b, s1);
            &&& bytes == s1.data + s2.data
            &&& e.receive_next == b.receive_next + s1.data.len() + s2.data.len()
            &&& e.recv_buffer.dom() == Set::<u32>::empty()
        }),
{
    let r = b.receive_next;
    let k2 = s2.seq_num;
    let m1 = b.recv_buffer;
    lemma_two_keys(m1, r, k2, s1, s2);
    let m2 = m1.insert(r, s1);
    let (a2, inc2) = receive_spec(b, s1);
    assert(a2 == ConnectionView { recv_buffer: m2, ..b });
    assert forall|j: u32| a2.recv_buffer.contains_key(j) implies r <= j by {
        assert(j == r || j == k2);
    }
    lemma_deliver_data(a2);
    let c2 = deliver_spec(a2).0;
    assert(c2.recv_buffer == m1);
    assert(c2.receive_next == k2);
    assert forall|j: u32| c2.recv_buffer.contains_key(j) implies k2 <= j by {
        assert(j == k2);
    }
    lemma_deliver_data(c2);
    let e2 = deliver_spec(c2).0;
    assert(e2.recv_buffer.dom() == Set::<u32>::empty());
    assert(deliver_spec(e2).1 is None);
    lemma_drain_none(e2, (MAXIMUM_RECV_BUFFER_SIZE - 1) as nat);
    lemma_drain_some(c2, (MAXIMUM_RECV_BUFFER_SIZE - 1) as nat);
    lemma_drain_some(a2, MAXIMUM_RECV_BUFFER_SIZE as nat);
    assert(drain(a2, (MAXIMUM_RECV_BUFFER_SIZE + 1) as nat) == (e2, s1.data + (s2.data
        + Seq::<u8>::empty())));
    assert(s1.data + (s2.data + Seq::<u8>::empty()) =~= s1.data + s2.data);
}

/// Two data segments that arrive in the wrong order are delivered in the
/// right order: the later one waits in the receive buffer until the earlier
/// one arrives, and then both reach the application, earlier one first.
pub proof fn lemma_swapped_pair(v: ConnectionView, s1: SegmentView, s2: SegmentView)
    requires
        v.wf(),
        v.recv_buffer.dom() == Set::<u32>::empty(),
        !v.fin_received,
        s1.kind() == Some(Kind::Ack),
        s2.kind() == Some(Kind::Ack),
        0 < s1.data.len() <= MAXIMUM_SEGMENT_SIZE,
        0 < s2.data.len() <= MAXIMUM_SEGMENT_SIZE,
        s1.seq_num == v.receive_next,
        s2.seq_num == v.receive_next + s1.data.len(),
        s1.ack_num <= v.send_next,
        s2.ack_num <= v.send_next,
        v.receive_next + s1.data.len() + s2.data.len() <= u32::MAX,
    ensures
        segment_acceptable(v, s2),
        segment_acceptable(segment_step(v, s2).0, s1),
        receive_all(v, seq![s2, s1]).1 == s1.data + s2.data,
        receive_all(v, seq![s2, s1]).0.receive_next == v.receive_next + s1.data.len()
            + s2.data.len(),
        receive_all(v, seq![s2, s1]).0.recv_buffer.dom() == Set::<u32>::empty(),
{
    lemma_early_segment_waits(v, s2);
    let (b, bytes1, _, _) = segment_step(v, s2);
    assert(v.recv_buffer =~= Map::<u32, SegmentView>::empty());
    lemma_gap_filled(b, s1, s2);
    let (e, bytes2, _, _) = segment_step(b, s1);
    let pair = seq![s2, s1];
    let single = pair.subrange(1, 2);
    assert(single =~= seq![s1]);
    assert(single.subrange(1, 1) =~= Seq::<SegmentView>::empty());
    assert(receive_all(e, single.subrange(1, 1)) == (e, Seq::<u8>::empty()));
    assert(receive_all(b, single) == (e, bytes2 + Seq::<u8>::empty()));
    assert(receive_all(v, pair) == (e, bytes1 + (bytes2 + Seq::<u8>::empty())));
    assert(bytes1 + (bytes2 + Seq::<u8>::empty()) =~= s1.data + s2.data);
}


proof fn lemma_deliver_fin(v: ConnectionView)
    requires
        v.recv_buffer.contains_key(v.receive_next),
        forall|j: u32| v.recv_buffer.contains_key(j) ==> v.receive_next <= j,
        v.recv_buffer[v.receive_next].kind() == Some(Kind::Fin),
    ensures
        deliver_spec(v) == (
            ConnectionView {
                fin_received: true,
                receive_next: (v.receive_next + 1) as u32,
                recv_buffer: v.recv_buffer.remove(v.receive_next),
                ..v
            },
            Some(PeerActionView::Eof),
        ),
{
    lemma_min_key(v.recv_buffer.dom(), v.receive_next);
}

/// A pure acknowledgement changes nothing but the send buffer, delivers
/// nothing and is not acknowledged.
proof fn lemma_pure_ack_step(v: ConnectionView, s: SegmentView)
    requires
        v.wf(),
        v.recv_buffer.dom() == Set::<u32>::empty(),
        s.kind() == Some(Kind::Ack),
        s.data.len() == 0,
    ensures
        ({
            let (v2, bytes, out, keep) = segment_step(v, s);
            &&& v2 == ConnectionView {
                send_buffer: remove_acked(v.send_buffer, s.ack_num),
                restart_pending: v2.send_buffer.len() > 0,
                ..v
            }
            &&& bytes == Seq::<u8>::empty()
            &&& v2.send_buffer.len() == 0 ==> out == Seq::<SegmentView>::empty()
            &&& keep == !(v2.send_buffer.len() == 0 && v.fin_sent && v.fin_received)
        }),
{
    assert(receive_spec(v, s).0 == v);
    assert(deliver_spec(v).1 is None);
    lemma_drain_none(v, (MAXIMUM_RECV_BUFFER_SIZE + 1) as nat);
}

/// Shutting down both ways: once this side has sent its FIN and had it
/// acknowledged, and the peer's FIN arrives in order, the application sees
/// the end of the stream, the peer's FIN is acknowledged and the connection
/// stops.
pub proof fn lemma_shutdown_completes(v: ConnectionView)
    requires
        v.wf(),
        v.send_buffer.len() == 0,
        v.recv_buffer.dom() == Set::<u32>::empty(),
        !v.fin_sent,
        !v.fin_received,
        v.send_next < u32::MAX,
        v.receive_next < u32::MAX,
    ensures
        ({
            let (v1, fins, keep1) = user_action_spec(v, Some(UserActionView::Shutdown));
            let fin = segment_of_kind(Kind::Fin, v.send_next, v.receive_next, Seq::empty());
            let ack_of_fin = segment_of_kind(Kind::Ack, v.receive_next, (v.send_next + 1) as u32, Seq::empty());
            let (v2, bytes2, ack2, keep2) = segment_step(v1, ack_of_fin);
            let peer_fin = segment_of_kind(Kind::Fin, v.receive_next, (v.send_next + 1) as u32, Seq::empty());
            let (v3, bytes3, ack3, keep3) = segment_step(v2, peer_fin);
            &&& user_action_acceptable(v, Some(UserActionView::Shutdown))
            &&& fins == seq![fin]
            &&& keep1
            &&& segment_acceptable(v1, ack_of_fin)
            &&& v2.send_buffer.len() == 0
            &&& ack2 == Seq::<SegmentView>::empty()
            &&& keep2
            &&& segment_acceptable(v2, peer_fin)
            &&& delivery_allowed(receive_spec(v2, peer_fin).0)
            &&& bytes3 == Seq::<u8>::empty()
            &&& v3.fin_sent && v3.fin_received
            &&& ack3 == seq![
                segment_of_kind(Kind::Ack, (v.send_next + 1) as u32, (v.receive_next + 1) as u32, Seq::empty()),
            ]
            &&& !keep3
        }),
{
    let (v1, fins, keep1) = user_action_spec(v, Some(UserActionView::Shutdown));
    let fin = segment_of_kind(Kind::Fin, v.send_next, v.receive_next, Seq::empty());
    assert(v1.send_buffer == seq![fin]);
    lemma_send_buffer_push(v.send_buffer, v.send_next, fin);
    assert(v1.wf());
    // The acknowledgement of the FIN empties the send buffer.
    let ack_of_fin = segment_of_kind(Kind::Ack, v.receive_next, (v.send_next + 1) as u32, Seq::empty());
    lemma_pure_ack_step(v1, ack_of_fin);
    lemma_full_ack_empties(v1.send_buffer, v1.send_next);
    let (v2, _, _, _) = segment_step(v1, ack_of_fin);
    lemma_remove_acked_ok(v1.send_buffer, v1.send_next, ack_of_fin.ack_num);
    // The peer's FIN is delivered as the end of the stream.
    let peer_fin = segment_of_kind(Kind::Fin, v.receive_next, (v.send_next + 1) as u32, Seq::empty());
    let (a, inc) = receive_spec(v2, peer_fin);
    let m = v2.recv_buffer.insert(v.receive_next, peer_fin);
    assert(m.dom() =~= set![v.receive_next]);
    assert(m.len() == 1);
    assert(a.recv_buffer == m);
    assert forall|j: u32| a.recv_buffer.contains_key(j) implies a.receive_next <= j by {
        assert(j == v.receive_next);
    }
    lemma_min_key(m.dom(), v.receive_next);
    lemma_deliver_fin(a);
    let b = deliver_spec(a).0;
    assert(b.recv_buffer.dom() =~= Set::<u32>::empty());
    assert(deliver_spec(b).1 is None);
    lemma_drain_none(b, MAXIMUM_RECV_BUFFER_SIZE as nat);
    lemma_drain_some(a, MAXIMUM_RECV_BUFFER_SIZE as nat);
    assert(Seq::<u8>::empty() + Seq::<u8>::empty() =~= Seq::<u8>::empty());
    assert(b.send_buffer == v2.send_buffer);
    assert(remove_acked(b.send_buffer, inc.ack_num) == b.send_buffer);
}


proof fn lemma_finite_set_has_max(d: Set<u32>)
    requires
        d.finite(),
        d != Set::<u32>::empty(),
    ensures
        d.contains(max_key(d)),
        forall|j: u32| d.contains(j) ==> j <= max_key(d),
    decreases d.len(),
{
    let x = d.choose();
    assert(d.contains(x)) by {
        if !d.contains(x) {
            assert(d =~= Set::<u32>::empty());
        }
    }
    let r = d.remove(x);
    if r == Set::<u32>::empty() {
        assert forall|j: u32| d.contains(j) implies j <= x by {
            if j != x {
                assert(r.contains(j));
            }
        }
        lemma_max_key(d, x);
    } else {
        lemma_finite_set_has_max(r);
        let m = max_key(r);
        if m < x {
            assert forall|j: u32| d.contains(j) implies j <= x by {
                if j != x {
                    assert(r.contains(j));
                }
            }
            lemma_max_key(d, x);
        } else {
            assert forall|j: u32| d.contains(j) implies j <= m by {
                if j != x {
                    assert(r.contains(j));
                }
            }
            lemma_max_key(d, m);
        }
    }
}

/// Putting a segment into a full receive buffer drops the segment with the
/// largest sequence number: the buffer never holds more than
/// `MAXIMUM_RECV_BUFFER_SIZE` segments, it keeps the segments with the
/// smallest sequence numbers among those it held and the new one, and a
/// kept segment is the one that was put in under its number.
pub proof fn lemma_recv_buffer_keeps_smallest(m: Map<u32, SegmentView>, s: SegmentView)
    requires
        m.dom().finite(),
        m.len() <= MAXIMUM_RECV_BUFFER_SIZE,
    ensures
        add_recv(m, s).dom().finite(),
        add_recv(m, s).len() <= MAXIMUM_RECV_BUFFER_SIZE,
        forall|k: u32| #[trigger]
            add_recv(m, s).contains_key(k) ==> m.insert(s.seq_num, s).contains_key(k) && add_recv(
                m,
                s,
            )[k] == m.insert(s.seq_num, s)[k],
        forall|k: u32, j: u32|
            #[trigger] m.insert(s.seq_num, s).contains_key(k) && !add_recv(m, s).contains_key(k)
                && #[trigger] add_recv(m, s).contains_key(j) ==> j < k,
        m.insert(s.seq_num, s).len() <= MAXIMUM_RECV_BUFFER_SIZE ==> add_recv(m, s) == m.insert(
            s.seq_num,
            s,
        ),
{
    let m2 = m.insert(s.seq_num, s);
    assert(m2.dom() =~= m.dom().insert(s.seq_num));
    assert(m2.dom().finite());
    if m2.len() > MAXIMUM_RECV_BUFFER_SIZE {
        assert(m2.dom() != Set::<u32>::empty()) by {
            assert(m2.dom().contains(s.seq_num));
        }
        lemma_finite_set_has_max(m2.dom());
        let k = max_key(m2.dom());
        let r = m2.remove(k);
        assert(r.dom() =~= m2.dom().remove(k));
        assert forall|k2: u32, j: u32|
            #[trigger] m2.contains_key(k2) && !r.contains_key(k2) && #[trigger] r.contains_key(j) implies j < k2 by {
            assert(k2 == k);
            assert(j <= k && j != k);
        }
    }
}


/// A segment sent again after it was taken in (a data segment or a FIN older
/// than the one expected next) delivers nothing and changes nothing of what
/// was received; when nothing of this side waits for an acknowledgement it
/// is acknowledged again, with the current numbers.
pub proof fn lemma_old_segment_reacknowledged(v: ConnectionView, s: SegmentView)
    requires
        v.wf(),
        deliver_spec(v).1 is None,
        s.seq_num < v.receive_next,
        bufferable(s),
    ensures
        ({
            let (v2, bytes, out, keep) = segment_step(v, s);
            &&& bytes == Seq::<u8>::empty()
            &&& v2.receive_next == v.receive_next
            &&& v2.recv_buffer == v.recv_buffer
            &&& v2.fin_received == v.fin_received
            &&& v2.send_next == v.send_next
            &&& remove_acked(v.send_buffer, s.ack_num).len() == 0 ==> out == seq![ack_spec(v)]
        }),
{
    assert(receive_spec(v, s).0 == v);
    lemma_drain_none(v, (MAXIMUM_RECV_BUFFER_SIZE + 1) as nat);
}

/// When the peer sends a data segment again that was already delivered,
/// nothing more reaches the application and the same acknowledgement as the
/// first time goes out (here nothing of this side waits for an
/// acknowledgement).
pub proof fn lemma_retransmitted_segment_same_ack(v: ConnectionView, s: SegmentView)
    requires
        v.wf(),
        v.recv_buffer.dom() == Set::<u32>::empty(),
        v.send_buffer.len() == 0,
        s.kind() == Some(Kind::Ack),
        0 < s.data.len() <= MAXIMUM_SEGMENT_SIZE,
        s.seq_num == v.receive_next,
        s.ack_num <= v.send_next,
        v.receive_next + s.data.len() <= u32::MAX,
    ensures
        ({
            let (v1, bytes1, out1, _) = segment_step(v, s);
            let (v2, bytes2, out2, _) = segment_step(v1, s);
            &&& bytes1 == s.data
            &&& bytes2 == Seq::<u8>::empty()
            &&& segment_acceptable(v1, s)
            &&& v2.receive_next == v1.receive_next
            &&& v2.recv_buffer == v1.recv_buffer
            &&& out1 == seq![ack_spec(v1)]
            &&& out2 == out1
        }),
{
    lemma_in_order_segment(v, s);
    let (v1, bytes1, out1, _) = segment_step(v, s);
    assert(remove_acked(v.send_buffer, s.ack_num) == v.send_buffer);
    assert(v1.send_buffer.len() == 0);
    assert(remove_acked(v1.send_buffer, s.ack_num) == v1.send_buffer);
    assert(deliver_spec(v1).1 is None);
    lemma_old_segment_reacknowledged(v1, s);
}

/// Whenever a received segment carries data or a FIN, something is sent in
/// answer, whatever the send buffer holds, and everything sent carries the
/// acknowledgement number expected next. When the segment's acknowledgement
/// number acknowledges something new, or nothing of this side waits, the
/// answer is a single bare ACK with this side's next sequence number.
pub proof fn lemma_received_data_acknowledged(v: ConnectionView, inc: Incoming, channel_closed: bool)
    requires
        inc.ack_needed,
    ensures
        ({
            let (v2, out, _) = complete_spec(v, inc, channel_closed);
            &&& out.len() > 0
            &&& forall|i: int| 0 <= i < out.len() ==> (#[trigger] out[i]).ack_num == v.receive_next
            &&& (remove_acked(v.send_buffer, inc.ack_num).len() < v.send_buffer.len()
                || v.send_buffer.len() == 0) ==> out == seq![
                segment_of_kind(Kind::Ack, v.send_next, v.receive_next, Seq::empty()),
            ]
        }),
{
    let buf = remove_acked(v.send_buffer, inc.ack_num);
    if v.send_buffer.len() == 0 {
        assert(buf == v.send_buffer);
    }
}

/// A received segment that is not a pure acknowledgement and not older than
/// the one expected next is put into the receive buffer, whatever its kind
/// and however far ahead it is (a FIN that arrives before the data preceding
/// it included); a pure acknowledgement or an older segment leaves the
/// state as it is. Either way what is left to do is to process its
/// acknowledgement number, and to acknowledge it exactly when it carries
/// data or is a FIN.
pub proof fn lemma_received_segment_kept(v: ConnectionView, s: SegmentView)
    ensures
        ({
            let (v2, inc) = receive_spec(v, s);
            &&& inc.ack_num == s.ack_num
            &&& inc.ack_needed == (s.data.len() as u32 > 0 || s.kind() == Some(Kind::Fin))
            &&& (!(s.kind() == Some(Kind::Ack) && s.data.len() as u32 == 0) && s.seq_num
                >= v.receive_next) ==> v2 == ConnectionView {
                recv_buffer: add_recv(v.recv_buffer, s),
                ..v
            }
            &&& ((s.kind() == Some(Kind::Ack) && s.data.len() as u32 == 0) || s.seq_num
                < v.receive_next) ==> v2 == v
        }),
{
}

/// The data segment expected next arrives while the FIN after it waits in
/// the receive buffer: the data, then the end of the stream, are delivered.
proof fn lemma_gap_before_fin_filled(b: ConnectionView, s: SegmentView, f: SegmentView)
    requires
        b.wf(),
        !b.fin_received,
        s.kind() == Some(Kind::Ack),
        f.kind() == Some(Kind::Fin),
        0 < s.data.len() <= MAXIMUM_SEGMENT_SIZE,
        f.data.len() == 0,
        s.seq_num == b.receive_next,
        f.seq_num == b.receive_next + s.data.len(),
        b.recv_buffer == Map::<u32, SegmentView>::empty().insert(f.seq_num, f),
        s.ack_num <= b.send_next,
        b.receive_next + s.data.len() < u32::MAX,
    ensures
        segment_acceptable(b, s),
        delivery_allowed(receive_spec(b, s).0),
        delivery_allowed(deliver_spec(receive_spec(b, s).0).0),
        ({
            let (e, bytes, _, _) = segment_step(b, s);
            &&& bytes == s.data
            &&& e.fin_received
            &&& e.receive_next == b.receive_next + s.data.len() + 1
            &&& e.recv_buffer.dom() == Set::<u32>::empty()
            &&& e.send_next == b.send_next
            &&& e.send_buffer == remove_acked(b.send_buffer, s.ack_num)
        }),
{
    let r = b.receive_next;
    let k2 = f.seq_num;
    let m1 = b.recv_buffer;
    lemma_two_keys(m1, r, k2, s, f);
    let m2 = m1.insert(r, s);
    let (a2, inc2) = receive_spec(b, s);
    assert(a2 == ConnectionView { recv_buffer: m2, ..b });
    assert forall|j: u32| a2.recv_buffer.contains_key(j) implies r <= j by {
        assert(j == r || j == k2);
    }
    lemma_min_key(m2.dom(), r);
    lemma_deliver_data(a2);
    let c2 = deliver_spec(a2).0;
    assert(c2.recv_buffer == m1);
    assert(c2.receive_next == k2);
    assert forall|j: u32| c2.recv_buffer.contains_key(j) implies k2 <= j by {
        assert(j == k2);
    }
    lemma_min_key(m1.dom(), k2);
    lemma_deliver_fin(c2);
    let e2 = deliver_spec(c2).0;
    assert(e2.recv_buffer.dom() == Set::<u32>::empty());
    assert(deliver_spec(e2).1 is None);
    lemma_drain_none(e2, (MAXIMUM_RECV_BUFFER_SIZE - 1) as nat);
    lemma_drain_some(c2, (MAXIMUM_RECV_BUFFER_SIZE - 1) as nat);
    lemma_drain_some(a2, MAXIMUM_RECV_BUFFER_SIZE as nat);
    assert(PeerActionView::Eof.bytes() == Seq::<u8>::empty());
    assert(drain(a2, (MAXIMUM_RECV_BUFFER_SIZE + 1) as nat) == (e2, s.data + (Seq::<u8>::empty()
        + Seq::<u8>::empty())));
    assert(s.data + (Seq::<u8>::empty() + Seq::<u8>::empty()) =~= s.data);
}

/// The peer's FIN arrives before its last data segment: the FIN waits in the
/// receive buffer and nothing is delivered; when the data arrives, the
/// application gets the data and then the end of the stream, the expected
/// sequence number moves past the FIN, and (when nothing of this side waits
/// for an acknowledgement) the answer acknowledges both.
pub proof fn lemma_fin_ahead_of_data(v: ConnectionView, s: SegmentView, f: SegmentView)
    requires
        v.wf(),
        v.recv_buffer.dom() == Set::<u32>::empty(),
        !v.fin_received,
        s.kind() == Some(Kind::Ack),
        f.kind() == Some(Kind::Fin),
        0 < s.data.len() <= MAXIMUM_SEGMENT_SIZE,
        f.data.len() == 0,
        s.seq_num == v.receive_next,
        f.seq_num == v.receive_next + s.data.len(),
        s.ack_num <= v.send_next,
        f.ack_num <= v.send_next,
        v.receive_next + s.data.len() < u32::MAX,
    ensures
        segment_acceptable(v, f),
        delivery_allowed(receive_spec(v, f).0),
        ({
            let (v1, bytes1, _, _) = segment_step(v, f);
            let (v2, bytes2, out2, _) = segment_step(v1, s);
            &&& bytes1 == Seq::<u8>::empty()
            &&& !v1.fin_received
            &&& v1.receive_next == v.receive_next
            &&& v1.recv_buffer.contains_key(f.seq_num)
            &&& segment_acceptable(v1, s)
            &&& delivery_allowed(receive_spec(v1, s).0)
            &&& delivery_allowed(deliver_spec(receive_spec(v1, s).0).0)
            &&& bytes2 == s.data
            &&& v2.fin_received
            &&& v2.receive_next == v.receive_next + s.data.len() + 1
            &&& v2.recv_buffer.dom() == Set::<u32>::empty()
            &&& v.send_buffer.len() == 0 ==> out2 == seq![
                segment_of_kind(Kind::Ack, v.send_next, (v.receive_next + s.data.len() + 1) as u32, Seq::empty()),
            ]
        }),
{
    lemma_early_segment_waits(v, f);
    let (v1, bytes1, _, _) = segment_step(v, f);
    assert(v.recv_buffer =~= Map::<u32, SegmentView>::empty());
    assert(v1.recv_buffer.contains_key(f.seq_num));
    if v.send_buffer.len() == 0 {
        assert(remove_acked(v.send_buffer, f.ack_num) == v.send_buffer);
        assert(remove_acked(v1.send_buffer, s.ack_num) == v1.send_buffer);
    }
    lemma_gap_before_fin_filled(v1, s, f);
}

/// Every write whose sequence numbers fit in 32 bits is taken, however
/// long it is, and no other: it is cut into segments whose payloads, put
/// together, are the write, all of which are sent at once and kept for
/// retransmission, and the next sequence number moves past the write.
pub proof fn lemma_any_write_taken(v: ConnectionView, d: Seq<u8>)
    ensures
        user_action_acceptable(v, Some(UserActionView::SendData(d))) <==> v.send_next + d.len()
            <= u32::MAX,
        v.send_next + d.len() <= u32::MAX ==> {
            let (v2, out, keep) = user_action_spec(v, Some(UserActionView::SendData(d)));
            &&& payload(out) == d
            &&& out.len() == chunk_count(d.len())
            &&& v2.send_buffer == v.send_buffer + out
            &&& v2.send_next == v.send_next + d.len()
            &&& keep
        },
{
    if v.send_next + d.len() <= u32::MAX {
        lemma_chunks_cover(v.send_next, v.receive_next, d);
    }
}

} // verus!
