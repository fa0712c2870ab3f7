//! Delivery in order whatever the order of arrival: the segments that data
//! is cut into, received in any order (each once), reach the application as
//! the data itself, as long as they fit in the receive buffer.

use vstd::prelude::*;
use crate::connection::{
    ConnectionView, MAXIMUM_RECV_BUFFER_SIZE, MAXIMUM_SEGMENT_SIZE, chunk_at,
    chunk_count, chunk_segments, complete_spec, deliver_spec, len32, receive_spec,
    recv_buffer_ok, segment_acceptable,
};
use crate::connection::laws::{
    drain, receive_all, segment_step, lemma_deliver_data, lemma_drain_none, lemma_drain_some,
    lemma_finite_set_has_min, lemma_remove_acked_ok,
};
use crate::segment::{Kind, SegmentView, segment_of_kind};

verus! {

/// Where the `i`-th segment of `n` bytes of data starts within the data (or
/// the end of the data, past the last segment).
pub open spec fn off(n: int, i: int) -> int {
    if MAXIMUM_SEGMENT_SIZE * i < n {
        MAXIMUM_SEGMENT_SIZE * i
    } else {
        n
    }
}

/// The sequence number of the `i`-th segment, counted from `r`.
pub open spec fn key_of(r: u32, i: int) -> u32 {
    (r + MAXIMUM_SEGMENT_SIZE * i) as u32
}

/// The index of the segment whose sequence number is `key`.
pub open spec fn index_of(r: u32, key: u32) -> int {
    (key - r) / MAXIMUM_SEGMENT_SIZE as int
}

/// The receive buffer holding the segments of `d` (numbered from `r`,
/// acknowledging `a`) whose indices are in `arrived` and at least `lo`.
pub open spec fn buffered(r: u32, a: u32, d: Seq<u8>, arrived: Set<int>, lo: int) -> Map<
    u32,
    SegmentView,
> {
    Map::new(
        |key: u32|
            key >= r && (key - r) % (MAXIMUM_SEGMENT_SIZE as int) == 0 && lo <= index_of(r, key)
                < chunk_count(d.len()) && arrived.contains(index_of(r, key)),
        |key: u32| chunk_at(r, a, d, index_of(r, key)),
    )
}

/// The first index from `m` on that has not arrived (or `k`).
pub open spec fn next_gap(arrived: Set<int>, m: int, k: int) -> int
    decreases k - m,
{
    if m >= k || !arrived.contains(m) {
        m
    } else {
        next_gap(arrived, m + 1, k)
    }
}

/// An order of arrival of `k` segments: each index from 0 to `k` exactly
/// once.
pub open spec fn is_arrival_order(order: Seq<int>, k: int) -> bool {
    &&& forall|j: int| 0 <= j < order.len() ==> 0 <= #[trigger] order[j] < k
    &&& forall|j1: int, j2: int|
        0 <= j1 < order.len() && 0 <= j2 < order.len() && j1 != j2 ==> #[trigger] order[j1]
            != #[trigger] order[j2]
    &&& forall|i: int| 0 <= i < k ==> #[trigger] order.contains(i)
}

proof fn lemma_chunk_facts(r: u32, a: u32, d: Seq<u8>, i: int)
    requires
        r + d.len() <= u32::MAX,
        0 <= i < chunk_count(d.len()),
    ensures
        off(d.len() as int, i) == MAXIMUM_SEGMENT_SIZE * i,
        MAXIMUM_SEGMENT_SIZE * i < d.len(),
        off(d.len() as int, i) < off(d.len() as int, i + 1) <= off(d.len() as int, i)
            + MAXIMUM_SEGMENT_SIZE,
        key_of(r, i) == r + MAXIMUM_SEGMENT_SIZE * i,
        (key_of(r, i) - r) % (MAXIMUM_SEGMENT_SIZE as int) == 0,
        index_of(r, key_of(r, i)) == i,
        chunk_at(r, a, d, i) == segment_of_kind(
            Kind::Ack,
            key_of(r, i),
            a,
            d.subrange(off(d.len() as int, i), off(d.len() as int, i + 1)),
        ),
{
}

proof fn lemma_off_end(n: int)
    requires
        n >= 0,
    ensures
        off(n, chunk_count(n as nat) as int) == n,
        off(n, 0) == 0,
{
}

proof fn lemma_next_gap(arrived: Set<int>, m: int, k: int)
    requires
        m <= k,
    ensures
        m <= next_gap(arrived, m, k) <= k,
        forall|i: int| m <= i < next_gap(arrived, m, k) ==> #[trigger] arrived.contains(i),
        next_gap(arrived, m, k) < k ==> !arrived.contains(next_gap(arrived, m, k)),
    decreases k - m,
{
    if m < k && arrived.contains(m) {
        lemma_next_gap(arrived, m + 1, k);
    }
}

proof fn lemma_off_mono(n: int, i: int, j: int)
    requires
        0 <= i <= j,
        n >= 0,
    ensures
        off(n, i) <= off(n, j),
{
}

/// Every key of the buffer is the sequence number of an arrived segment.
proof fn lemma_buffered_keys(r: u32, a: u32, d: Seq<u8>, arrived: Set<int>, lo: int, key: u32)
    requires
        r + d.len() <= u32::MAX,
        buffered(r, a, d, arrived, lo).contains_key(key),
    ensures
        key == key_of(r, index_of(r, key)),
        lo <= index_of(r, key) < chunk_count(d.len()),
        arrived.contains(index_of(r, key)),
{
}

/// A buffer of arrived segments is one the connection may hold: each
/// segment under its own sequence number, and no more of them than the data
/// has segments.
proof fn lemma_buffered_ok(r: u32, a: u32, d: Seq<u8>, arrived: Set<int>, lo: int)
    requires
        r + d.len() <= u32::MAX,
        chunk_count(d.len()) <= MAXIMUM_RECV_BUFFER_SIZE,
    ensures
        recv_buffer_ok(buffered(r, a, d, arrived, lo)),
{
    let k = chunk_count(d.len()) as int;
    let b = buffered(r, a, d, arrived, lo);
    let keys = Seq::new(k as nat, |i: int| key_of(r, i));
    keys.lemma_cardinality_of_set();
    assert(b.dom().subset_of(keys.to_set())) by {
        assert forall|key: u32| b.dom().contains(key) implies keys.to_set().contains(key) by {
            lemma_buffered_keys(r, a, d, arrived, lo, key);
            let i = index_of(r, key);
            assert(keys[i] == key);
        }
    }
    vstd::set_lib::lemma_len_subset(b.dom(), keys.to_set());
    assert forall|key: u32| #[trigger] b.contains_key(key) implies b[key].seq_num == key by {
        lemma_buffered_keys(r, a, d, arrived, lo, key);
        lemma_chunk_facts(r, a, d, index_of(r, key));
    }
}

/// Delivering from the buffer, with the segment expected next being the
/// `m`-th: the segments that arrived from `m` on without a gap are handed
/// over, in order, as one stretch of the data.
proof fn lemma_drain_run(
    st: ConnectionView,
    r: u32,
    a: u32,
    d: Seq<u8>,
    arrived: Set<int>,
    m: int,
    fuel: nat,
)
    requires
        st.wf(),
        r + d.len() <= u32::MAX,
        chunk_count(d.len()) <= MAXIMUM_RECV_BUFFER_SIZE,
        0 <= m <= chunk_count(d.len()),
        fuel >= chunk_count(d.len()) - m + 1,
        st.receive_next == r + off(d.len() as int, m),
        st.recv_buffer == buffered(r, a, d, arrived, m),
    ensures
        ({
            let m2 = next_gap(arrived, m, chunk_count(d.len()) as int);
            &&& drain(st, fuel).1 == d.subrange(off(d.len() as int, m), off(d.len() as int, m2))
            &&& drain(st, fuel).0 == ConnectionView {
                receive_next: (r + off(d.len() as int, m2)) as u32,
                recv_buffer: buffered(r, a, d, arrived, m2),
                ..st
            }
        }),
    decreases chunk_count(d.len()) - m,
{
    let k = chunk_count(d.len()) as int;
    let n = d.len() as int;
    let b = st.recv_buffer;
    if m == k || !arrived.contains(m) {
        // Nothing is deliverable: the key expected next is not buffered.
        assert(deliver_spec(st).1 is None) by {
            if b.dom() != Set::<u32>::empty() {
                lemma_finite_set_has_min(b.dom());
            }
            if m < k {
                lemma_chunk_facts(r, a, d, m);
                if b.contains_key(st.receive_next) {
                    lemma_buffered_keys(r, a, d, arrived, m, st.receive_next);
                }
            } else {
                assert forall|key: u32| !b.contains_key(key) by {
                }
            }
        }
        lemma_drain_none(st, fuel);
        assert(d.subrange(off(n, m), off(n, m)) =~= Seq::<u8>::empty());
    } else {
        lemma_chunk_facts(r, a, d, m);
        let km = key_of(r, m);
        assert(b.contains_key(km));
        assert forall|j: u32| b.contains_key(j) implies km <= j by {
            lemma_buffered_keys(r, a, d, arrived, m, j);
        }
        lemma_deliver_data(st);
        let st2 = deliver_spec(st).0;
        assert(b.remove(km) =~= buffered(r, a, d, arrived, m + 1)) by {
            assert forall|key: u32| #[trigger] b.remove(km).contains_key(key) <==> buffered(r, a, d, arrived, m + 1).contains_key(key) by {
                if b.contains_key(key) {
                    lemma_buffered_keys(r, a, d, arrived, m, key);
                }
                if buffered(r, a, d, arrived, m + 1).contains_key(key) {
                    lemma_buffered_keys(r, a, d, arrived, m + 1, key);
                }
            }
        }
        assert(len32(b[km]) == off(n, m + 1) - off(n, m));
        lemma_buffered_ok(r, a, d, arrived, m + 1);
        assert(st2.wf());
        lemma_drain_run(st2, r, a, d, arrived, m + 1, (fuel - 1) as nat);
        lemma_drain_some(st, (fuel - 1) as nat);
        lemma_next_gap(arrived, m + 1, k);
        lemma_off_mono(n, m + 1, next_gap(arrived, m + 1, k));
        assert(d.subrange(off(n, m), off(n, m + 1)) + d.subrange(
            off(n, m + 1),
            off(n, next_gap(arrived, m + 1, k)),
        ) =~= d.subrange(off(n, m), off(n, next_gap(arrived, m + 1, k))));
    }
}

/// The segments of `d` with the indices in `order` arrive one after the
/// other; those in `arrived` have arrived before, all before index `m` and
/// not `m` itself. Then the rest of the data from the `m`-th segment on
/// reaches the application, the expected sequence number ends past the
/// data, and the receive buffer ends empty.
#[verifier::rlimit(40)]
proof fn lemma_arrivals(
    st: ConnectionView,
    r: u32,
    a: u32,
    d: Seq<u8>,
    arrived: Set<int>,
    m: int,
    order: Seq<int>,
)
    requires
        st.wf(),
        !st.fin_received,
        a <= st.send_next,
        r + d.len() <= u32::MAX,
        chunk_count(d.len()) <= MAXIMUM_RECV_BUFFER_SIZE,
        0 <= m <= chunk_count(d.len()),
        forall|i: int| 0 <= i < m ==> #[trigger] arrived.contains(i),
        m < chunk_count(d.len()) ==> !arrived.contains(m),
        forall|i: int| #[trigger] arrived.contains(i) ==> 0 <= i < chunk_count(d.len()),
        st.receive_next == r + off(d.len() as int, m),
        st.recv_buffer == buffered(r, a, d, arrived, m),
        forall|j: int| 0 <= j < order.len() ==> 0 <= #[trigger] order[j] < chunk_count(d.len()),
        forall|j: int| 0 <= j < order.len() ==> !arrived.contains(#[trigger] order[j]),
        forall|j1: int, j2: int|
            0 <= j1 < order.len() && 0 <= j2 < order.len() && j1 != j2 ==> #[trigger] order[j1]
                != #[trigger] order[j2],
        forall|i: int|
            0 <= i < chunk_count(d.len()) ==> #[trigger] arrived.contains(i) || order.contains(i),
    ensures
        ({
            let segs = chunk_segments(r, a, d);
            let (st2, bytes) = receive_all(st, order.map_values(|i: int| segs[i]));
            &&& bytes == d.subrange(off(d.len() as int, m), d.len() as int)
            &&& st2.receive_next == r + d.len()
            &&& st2.recv_buffer.dom() == Set::<u32>::empty()
        }),
    decreases order.len(),
{
    let k = chunk_count(d.len()) as int;
    let n = d.len() as int;
    let segs = chunk_segments(r, a, d);
    let arr = order.map_values(|i: int| segs[i]);
    lemma_off_end(n);
    if order.len() == 0 {
        if m < k {
            assert(order.contains(m) ==> false);
            assert(false);
        }
        assert(d.subrange(n, n) =~= Seq::<u8>::empty());
        assert(st.recv_buffer.dom() =~= Set::<u32>::empty());
    } else {
        let p = order[0];
        lemma_chunk_facts(r, a, d, p);
        let s = segs[p];
        assert(s == chunk_at(r, a, d, p));
        assert(arr[0] == s);
        // The new segment is taken into the buffer.
        let arrived2 = arrived.insert(p);
        if p < m {
            assert(arrived.contains(p));
        }
        assert(p >= m);
        lemma_off_mono(n, m, p);
        assert(segment_acceptable(st, s));
        let m0 = st.recv_buffer.insert(s.seq_num, s);
        assert(m0 =~= buffered(r, a, d, arrived2, m)) by {
            assert forall|key: u32| #[trigger] m0.contains_key(key) <==> buffered(r, a, d, arrived2, m).contains_key(key) by {
                if st.recv_buffer.contains_key(key) {
                    lemma_buffered_keys(r, a, d, arrived, m, key);
                }
                if buffered(r, a, d, arrived2, m).contains_key(key) {
                    lemma_buffered_keys(r, a, d, arrived2, m, key);
                }
            }
        }
        lemma_buffered_ok(r, a, d, arrived2, m);
        let (v1, inc) = receive_spec(st, s);
        assert(v1 == ConnectionView { recv_buffer: buffered(r, a, d, arrived2, m), ..st });
        // Then delivered as far as the segments follow each other.
        let fuel = (MAXIMUM_RECV_BUFFER_SIZE + 1) as nat;
        lemma_drain_run(v1, r, a, d, arrived2, m, fuel);
        let m2 = next_gap(arrived2, m, k);
        lemma_next_gap(arrived2, m, k);
        let (v2, bytes) = drain(v1, fuel);
        let (v3, out, keep) = complete_spec(v2, inc, false);
        lemma_remove_acked_ok(v2.send_buffer, v2.send_next, inc.ack_num);
        lemma_buffered_ok(r, a, d, arrived2, m2);
        assert(v3.wf());
        assert(segment_step(st, s) == (v3, bytes, out, keep));
        // The rest arrive.
        let tail = order.subrange(1, order.len() as int);
        assert forall|i: int| 0 <= i < k implies #[trigger] arrived2.contains(i) || tail.contains(i) by {
            if !arrived2.contains(i) {
                assert(order.contains(i));
                let j = choose|j: int| 0 <= j < order.len() && order[j] == i;
                assert(j != 0);
                assert(tail[j - 1] == i);
            }
        }
        assert forall|j: int| 0 <= j < tail.len() implies !arrived2.contains(#[trigger] tail[j]) by {
            assert(tail[j] == order[j + 1]);
            assert(order[j + 1] != order[0]);
        }
        lemma_arrivals(v3, r, a, d, arrived2, m2, tail);
        assert(arr.subrange(1, arr.len() as int) =~= tail.map_values(|i: int| segs[i]));
        lemma_off_mono(n, m, m2);
        assert(d.subrange(off(n, m), off(n, m2)) + d.subrange(off(n, m2), n) =~= d.subrange(
            off(n, m),
            n,
        ));
    }
}

/// The segments that one side cuts its data into reach the application on
/// the other side as that very data, in whatever order they arrive, each
/// once, when they all fit in the receive buffer: the receiver delivers the
/// data unchanged, then expects the sequence number after it, and holds
/// nothing in its receive buffer.
pub proof fn lemma_any_arrival_order(v: ConnectionView, a: u32, d: Seq<u8>, order: Seq<int>)
    requires
        v.wf(),
        v.recv_buffer.dom() == Set::<u32>::empty(),
        !v.fin_received,
        a <= v.send_next,
        v.receive_next + d.len() <= u32::MAX,
        chunk_count(d.len()) <= MAXIMUM_RECV_BUFFER_SIZE,
        is_arrival_order(order, chunk_count(d.len()) as int),
    ensures
        ({
            let segs = chunk_segments(v.receive_next, a, d);
            let (v2, bytes) = receive_all(v, order.map_values(|i: int| segs[i]));
            &&& bytes == d
            &&& v2.receive_next == v.receive_next + d.len()
            &&& v2.recv_buffer.dom() == Set::<u32>::empty()
        }),
{
    let r = v.receive_next;
    lemma_off_end(d.len() as int);
    assert(v.recv_buffer =~= buffered(r, a, d, Set::<int>::empty(), 0)) by {
        assert forall|key: u32| !buffered(r, a, d, Set::<int>::empty(), 0).contains_key(key) by {
        }
        assert forall|key: u32| !v.recv_buffer.contains_key(key) by {
            assert(!v.recv_buffer.dom().contains(key));
        }
    }
    lemma_arrivals(v, r, a, d, Set::<int>::empty(), 0, order);
    assert(d.subrange(0, d.len() as int) =~= d);
}

} // verus!
