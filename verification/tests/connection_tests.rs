use udp_tcp_copycat::connection::{
    Connection, Incoming, PeerAction, TimerAction, UserAction, MAXIMUM_RECV_BUFFER_SIZE,
    MAXIMUM_SEGMENT_SIZE,
};
use udp_tcp_copycat::segment::{Kind, Segment};

/// Runs the receive path the way the connection task does, collecting what
/// is delivered to the application.
fn receive(conn: &mut Connection, seg: Segment) -> (Vec<Vec<u8>>, bool, Vec<Segment>, bool) {
    assert!(conn.segment_acceptable(&seg));
    let incoming = conn.receive_segment(seg);
    let mut delivered = Vec::new();
    let mut eof = false;
    loop {
        assert!(conn.delivery_allowed());
        match conn.deliver_next() {
            Some(PeerAction::Data(d)) => delivered.push(d),
            Some(PeerAction::Eof) => eof = true,
            None => break,
        }
    }
    let (out, keep_running) = conn.complete_receive(incoming, false);
    (delivered, eof, out, keep_running)
}

fn user(conn: &mut Connection, action: UserAction) -> (Vec<Segment>, bool) {
    let action = Some(action);
    assert!(conn.user_action_acceptable(&action));
    conn.handle_received_user_action(action)
}

#[test]
fn explicit_sequence_numbers_after_handshake() {
    let mut conn = Connection::new(1001, 2001);
    assert_eq!(conn.adjust_timer(), TimerAction::Keep);

    // Write #1
    let (segs, keep) = user(&mut conn, UserAction::SendData(b"hello".to_vec()));
    assert!(keep);
    assert_eq!(segs, vec![Segment::with_kind(Kind::Ack, 1001, 2001, b"hello")]);
    assert_eq!(conn.adjust_timer(), TimerAction::Start);
    let (d, eof, ack, keep) = receive(&mut conn, Segment::new_empty(Kind::Ack, 2001, 1006));
    assert!(d.is_empty() && !eof && ack.is_empty() && keep);
    assert_eq!(conn.adjust_timer(), TimerAction::Stop);

    // Write #2
    let (segs, _) = user(&mut conn, UserAction::SendData(b"more".to_vec()));
    assert_eq!(segs, vec![Segment::with_kind(Kind::Ack, 1006, 2001, b"more")]);
    assert_eq!(conn.adjust_timer(), TimerAction::Start);
    receive(&mut conn, Segment::new_empty(Kind::Ack, 2001, 1010));
    assert_eq!(conn.adjust_timer(), TimerAction::Stop);

    // Read
    let (d, _, ack, _) = receive(&mut conn, Segment::with_kind(Kind::Ack, 2001, 1010, b"From test case"));
    assert_eq!(d, vec![b"From test case".to_vec()]);
    assert_eq!(ack, vec![Segment::new_empty(Kind::Ack, 1010, 2015)]);

    // Shutdown from this side
    let (segs, keep) = user(&mut conn, UserAction::Shutdown);
    assert!(keep);
    assert_eq!(segs, vec![Segment::new_empty(Kind::Fin, 1010, 2015)]);
    assert!(conn.fin_sent());
    assert_eq!(conn.send_next(), 1011);
    assert_eq!(conn.adjust_timer(), TimerAction::Start);
    let (_, _, ack, keep) = receive(&mut conn, Segment::new_empty(Kind::Ack, 2015, 1011));
    assert!(ack.is_empty() && keep);
    assert_eq!(conn.adjust_timer(), TimerAction::Stop);

    // Shutdown from the peer
    let (d, eof, ack, keep) = receive(&mut conn, Segment::new_empty(Kind::Fin, 2015, 1011));
    assert!(d.is_empty());
    assert!(eof);
    assert_eq!(ack, vec![Segment::new_empty(Kind::Ack, 1011, 2016)]);
    assert!(!keep);
    assert!(conn.fin_received());
    assert_eq!(conn.receive_next(), 2016);
}

#[test]
fn out_of_order_segment_is_buffered_until_the_gap_is_filled() {
    let mut conn = Connection::new(1, 100);
    let (d, _, ack, _) = receive(&mut conn, Segment::with_kind(Kind::Ack, 109, 1, b"some other data"));
    assert!(d.is_empty());
    assert_eq!(ack, vec![Segment::new_empty(Kind::Ack, 1, 100)]);
    let (d, _, ack, _) = receive(&mut conn, Segment::with_kind(Kind::Ack, 100, 1, b"some data"));
    assert_eq!(d, vec![b"some data".to_vec(), b"some other data".to_vec()]);
    assert_eq!(ack, vec![Segment::new_empty(Kind::Ack, 1, 124)]);
    assert_eq!(conn.receive_next(), 124);
}

#[test]
fn duplicate_segment_is_not_delivered_twice() {
    let mut conn = Connection::new(1, 100);
    let seg = Segment::with_kind(Kind::Ack, 100, 1, b"abc");
    let (d, _, _, _) = receive(&mut conn, seg.clone());
    assert_eq!(d, vec![b"abc".to_vec()]);
    let (d, _, ack, keep) = receive(&mut conn, seg);
    assert!(d.is_empty());
    assert_eq!(ack, vec![Segment::new_empty(Kind::Ack, 1, 103)]);
    assert!(keep);
}

#[test]
fn full_receive_buffer_drops_the_largest_sequence_number() {
    let mut conn = Connection::new(1, 0);
    // Segments 1..=11 arrive (one byte each) while segment 0 is missing.
    for i in 1..=(MAXIMUM_RECV_BUFFER_SIZE as u32 + 1) {
        let (d, _, _, _) = receive(&mut conn, Segment::with_kind(Kind::Ack, i, 1, &[i as u8]));
        assert!(d.is_empty());
    }
    // Segment 11 was dropped when it arrived; putting in segment 0 drops
    // segment 10, so delivery stops after segment 9.
    let (d, _, _, _) = receive(&mut conn, Segment::with_kind(Kind::Ack, 0, 1, &[0]));
    let expected: Vec<Vec<u8>> = (0..MAXIMUM_RECV_BUFFER_SIZE as u8).map(|i| vec![i]).collect();
    assert_eq!(d, expected);
    assert_eq!(conn.receive_next(), MAXIMUM_RECV_BUFFER_SIZE as u32);
}

#[test]
fn data_is_cut_into_maximum_size_segments() {
    let mut conn = Connection::new(10, 20);
    let data: Vec<u8> = (0..(2 * MAXIMUM_SEGMENT_SIZE + 10)).map(|i| (i % 256) as u8).collect();
    let (segs, keep) = user(&mut conn, UserAction::SendData(data.clone()));
    assert!(keep);
    assert_eq!(segs.len(), 3);
    assert_eq!(segs[0], Segment::with_kind(Kind::Ack, 10, 20, &data[0..500]));
    assert_eq!(segs[1], Segment::with_kind(Kind::Ack, 510, 20, &data[500..1000]));
    assert_eq!(segs[2], Segment::with_kind(Kind::Ack, 1010, 20, &data[1000..1010]));
    assert_eq!(conn.send_next(), 1020);
}

#[test]
fn retransmission_resends_everything_unacknowledged_in_order() {
    let mut conn = Connection::new(0, 0);
    let (a, _) = user(&mut conn, UserAction::SendData(b"first".to_vec()));
    let (b, _) = user(&mut conn, UserAction::SendData(b"second".to_vec()));
    let (c, _) = user(&mut conn, UserAction::Shutdown);
    let expected: Vec<Segment> = a.into_iter().chain(b).chain(c).collect();
    assert_eq!(conn.handle_retransmit(), expected);

    // The first segment acknowledged, the rest not.
    receive(&mut conn, Segment::new_empty(Kind::Ack, 0, 5));
    assert_eq!(conn.handle_retransmit(), expected[1..].to_vec());

    // An acknowledgement inside the second segment removes nothing more.
    receive(&mut conn, Segment::new_empty(Kind::Ack, 0, 10));
    assert_eq!(conn.handle_retransmit(), expected[1..].to_vec());
}

#[test]
fn cumulative_ack_empties_the_send_buffer() {
    let mut conn = Connection::new(0, 0);
    user(&mut conn, UserAction::SendData(b"some data".to_vec()));
    user(&mut conn, UserAction::SendData(b"some other data".to_vec()));
    assert_eq!(conn.adjust_timer(), TimerAction::Start);
    receive(&mut conn, Segment::new_empty(Kind::Ack, 0, 24));
    assert!(conn.send_buffer_is_empty());
    assert_eq!(conn.adjust_timer(), TimerAction::Stop);
    assert!(!conn.timer_running());
}

#[test]
fn close_and_gone_application_stop_the_connection() {
    let mut conn = Connection::new(0, 0);
    let (segs, keep) = user(&mut conn, UserAction::Close);
    assert!(segs.is_empty() && !keep);
    let (segs, keep) = conn.handle_received_user_action(None);
    assert!(segs.is_empty() && !keep);
}

#[test]
fn accept_is_refused_for_a_connection() {
    let conn = Connection::new(0, 0);
    assert!(!conn.user_action_acceptable(&Some(UserAction::Accept)));
}

#[test]
fn segments_the_connection_cannot_take() {
    let conn = Connection::new(5, 0);
    // Acknowledges what was never sent.
    assert!(!conn.segment_acceptable(&Segment::new_empty(Kind::Ack, 0, 6)));
    // A SYN after the handshake.
    assert!(!conn.segment_acceptable(&Segment::new_empty(Kind::Syn, 0, 0)));
    assert!(conn.segment_acceptable(&Segment::new_empty(Kind::Ack, 0, 5)));
}

#[test]
fn closed_application_channel_stops_the_connection() {
    let mut conn = Connection::new(0, 0);
    let incoming = conn.receive_segment(Segment::with_kind(Kind::Ack, 0, 0, b"x"));
    assert_eq!(incoming, Incoming { ack_num: 0, ack_needed: true });
    let (ack, keep) = conn.complete_receive(incoming, true);
    assert_eq!(ack, vec![Segment::new_empty(Kind::Ack, 0, 0)]);
    assert!(!keep);
}

#[test]
fn pure_ack_needs_no_ack() {
    let mut conn = Connection::new(3, 7);
    let incoming = conn.receive_segment(Segment::new_empty(Kind::Ack, 7, 3));
    assert_eq!(incoming, Incoming { ack_num: 3, ack_needed: false });
    assert_eq!(conn.ack_segment(), Segment::new_empty(Kind::Ack, 3, 7));
}

#[test]
fn partial_ack_restarts_the_timer() {
    let mut conn = Connection::new(100, 0);
    user(&mut conn, UserAction::SendData(b"some data".to_vec()));
    assert_eq!(conn.adjust_timer(), TimerAction::Start);
    let (second, _) = user(&mut conn, UserAction::SendData(b"some other data".to_vec()));
    assert_eq!(conn.adjust_timer(), TimerAction::Keep);

    // The first segment is acknowledged, the second is not: progress was
    // made, so the timer starts afresh and nothing is sent.
    let (_, _, out, keep) = receive(&mut conn, Segment::new_empty(Kind::Ack, 0, 109));
    assert!(out.is_empty() && keep);
    assert_eq!(conn.adjust_timer(), TimerAction::Start);

    // On timeout only the unacknowledged segment goes out again.
    assert_eq!(conn.handle_retransmit(), second);

    let (_, _, out, _) = receive(&mut conn, Segment::new_empty(Kind::Ack, 0, 124));
    assert!(out.is_empty());
    assert_eq!(conn.adjust_timer(), TimerAction::Stop);
}

#[test]
fn old_ack_triggers_fast_retransmission() {
    let mut conn = Connection::new(100, 7);
    let (first, _) = user(&mut conn, UserAction::SendData(b"first data".to_vec()));
    assert_eq!(conn.adjust_timer(), TimerAction::Start);
    let (second, _) = user(&mut conn, UserAction::SendData(b"second data".to_vec()));
    assert_eq!(conn.adjust_timer(), TimerAction::Keep);

    // An acknowledgement of nothing new: everything waiting is sent again
    // and the timer starts afresh.
    let (_, _, out, _) = receive(&mut conn, Segment::new_empty(Kind::Ack, 7, 100));
    let expected: Vec<Segment> = first.into_iter().chain(second).collect();
    assert_eq!(out, expected);
    assert_eq!(conn.adjust_timer(), TimerAction::Start);
}

#[test]
fn data_that_acknowledges_nothing_new_carries_the_ack_in_a_retransmission() {
    let mut conn = Connection::new(1000, 2000);
    let (sent, _) = user(&mut conn, UserAction::SendData(b"data".to_vec()));
    assert_eq!(sent, vec![Segment::with_kind(Kind::Ack, 1000, 2000, b"data")]);
    assert_eq!(conn.adjust_timer(), TimerAction::Start);

    // The peer sends data before it has seen ours.
    let (d, _, out, keep) = receive(&mut conn, Segment::with_kind(Kind::Ack, 2000, 1000, b"data from tc"));
    assert_eq!(d, vec![b"data from tc".to_vec()]);
    assert!(keep);
    // No bare ACK: our data goes out again, acknowledging the peer's data.
    assert_eq!(out, vec![Segment::with_kind(Kind::Ack, 1000, 2012, b"data")]);
    assert_eq!(conn.adjust_timer(), TimerAction::Start);

    let (_, _, out, _) = receive(&mut conn, Segment::new_empty(Kind::Ack, 2012, 1004));
    assert!(out.is_empty());
    assert_eq!(conn.adjust_timer(), TimerAction::Stop);
}

#[test]
fn simultaneous_shutdown_retransmits_the_fin_with_the_new_ack() {
    let mut conn = Connection::new(50, 80);
    let (fin, _) = user(&mut conn, UserAction::Shutdown);
    assert_eq!(fin, vec![Segment::new_empty(Kind::Fin, 50, 80)]);
    assert_eq!(conn.adjust_timer(), TimerAction::Start);

    // The peer's FIN does not acknowledge ours.
    let (d, eof, out, keep) = receive(&mut conn, Segment::new_empty(Kind::Fin, 80, 50));
    assert!(d.is_empty() && eof && keep);
    assert_eq!(out, vec![Segment::new_empty(Kind::Fin, 50, 81)]);
    assert_eq!(conn.adjust_timer(), TimerAction::Start);

    // The peer acknowledges our FIN: the connection is done.
    let (_, _, out, keep) = receive(&mut conn, Segment::new_empty(Kind::Ack, 81, 51));
    assert!(out.is_empty());
    assert!(!keep);
}

#[test]
fn timeout_retransmission_carries_the_current_ack() {
    let mut conn = Connection::new(0, 10);
    user(&mut conn, UserAction::SendData(b"abc".to_vec()));
    // Data from the peer arrives and is acknowledged by a retransmission...
    receive(&mut conn, Segment::with_kind(Kind::Ack, 10, 0, b"xy"));
    // ...and a later timeout also carries the new acknowledgement number.
    assert_eq!(conn.handle_retransmit(), vec![Segment::with_kind(Kind::Ack, 0, 12, b"abc")]);
}

#[test]
fn segments_in_any_order_are_delivered_in_order() {
    let mut conn = Connection::new(7, 1000);
    let segs: Vec<Segment> = (0..9u32)
        .map(|i| Segment::with_kind(Kind::Ack, 1000 + 10 * i, 7, &[i as u8; 10]))
        .collect();
    let base = Segment::new_empty(Kind::Ack, 7, 1000);
    let mut all = Vec::new();
    for (idx, expected_next) in [(2, 1000), (3, 1000), (6, 1000), (8, 1000), (0, 1010), (1, 1040), (5, 1040), (4, 1070), (7, 1090)] {
        let (d, _, out, keep) = receive(&mut conn, segs[idx].clone());
        assert!(keep);
        assert_eq!(out, vec![Segment::new_empty(Kind::Ack, 7, expected_next)]);
        if expected_next == 1000 {
            assert_eq!(out, vec![base.clone()]);
        }
        for piece in d {
            all.extend(piece);
        }
    }
    let expected: Vec<u8> = (0..9u8).flat_map(|i| vec![i; 10]).collect();
    assert_eq!(all, expected);
    assert_eq!(conn.receive_next(), 1090);
}

#[test]
fn any_segment_can_be_put_into_the_receive_buffer() {
    let mut conn = Connection::new(0, 10);
    // A pure acknowledgement is held like any other segment...
    conn.add_to_recv_buffer(Segment::new_empty(Kind::Ack, 12, 0));
    assert!(conn.delivery_allowed());
    assert!(conn.deliver_next().is_none());
    // ...data before it is delivered...
    conn.add_to_recv_buffer(Segment::with_kind(Kind::Ack, 10, 0, b"ab"));
    assert!(conn.delivery_allowed());
    match conn.deliver_next() {
        Some(PeerAction::Data(d)) => assert_eq!(d, b"ab".to_vec()),
        other => panic!("unexpected delivery: {:?}", other),
    }
    assert_eq!(conn.receive_next(), 12);
    // ...but once it is the segment expected next, it cannot be delivered.
    assert!(!conn.delivery_allowed());
}

#[test]
fn a_syn_expected_next_cannot_be_delivered() {
    let mut conn = Connection::new(0, 10);
    conn.add_to_recv_buffer(Segment::new_empty(Kind::Syn, 10, 0));
    assert!(!conn.delivery_allowed());
}

#[test]
fn timeout_starts_the_timer_again_and_resends_the_buffer() {
    let mut conn = Connection::new(0, 10);
    user(&mut conn, UserAction::SendData(b"abc".to_vec()));
    user(&mut conn, UserAction::Shutdown);
    assert_eq!(conn.adjust_timer(), TimerAction::Start);
    let (segs, action) = conn.handle_timeout();
    assert_eq!(action, TimerAction::Start);
    assert_eq!(
        segs,
        vec![Segment::with_kind(Kind::Ack, 0, 10, b"abc"), Segment::new_empty(Kind::Fin, 3, 10)]
    );
    assert_eq!(segs, conn.handle_retransmit());
    assert!(conn.timer_running());
    assert_eq!(conn.send_next(), 4);
}
