use udp_tcp_copycat::handshake::{
    check_syn_ack, client_finish, client_syn, server_answer, SERVER_INITIAL_SEQ_NUM,
};
use udp_tcp_copycat::segment::{Kind, Segment};

#[test]
fn handshake_sequence_numbers() {
    let syn = client_syn(1000);
    assert_eq!(syn, Segment::new_empty(Kind::Syn, 1000, 0));

    let (syn_ack, server_send_next, server_receive_next) = server_answer(&syn);
    assert_eq!(syn_ack, Segment::new_empty(Kind::SynAck, SERVER_INITIAL_SEQ_NUM, 1001));
    assert_eq!(server_send_next, 1001);
    assert_eq!(server_receive_next, 1001);

    assert!(check_syn_ack(1000, &syn_ack));
    let (ack, send_next, receive_next) = client_finish(1000, &syn_ack);
    assert_eq!(ack, Segment::new_empty(Kind::Ack, 1001, 1001));
    assert_eq!((send_next, receive_next), (1001, 1001));
}

#[test]
fn client_side_with_explicit_numbers() {
    let syn_ack = Segment::new_empty(Kind::SynAck, 2000, 1001);
    assert!(check_syn_ack(1000, &syn_ack));
    let (ack, send_next, receive_next) = client_finish(1000, &syn_ack);
    assert_eq!(ack, Segment::new_empty(Kind::Ack, 1001, 2001));
    assert_eq!((send_next, receive_next), (1001, 2001));
}

#[test]
fn wrong_answers_to_syn_are_refused() {
    // Acknowledges the wrong number.
    assert!(!check_syn_ack(1000, &Segment::new_empty(Kind::SynAck, 2000, 1000)));
    // Not a SYN-ACK.
    assert!(!check_syn_ack(1000, &Segment::new_empty(Kind::Ack, 2000, 1001)));
    // Carries data.
    assert!(!check_syn_ack(1000, &Segment::with_kind(Kind::SynAck, 2000, 1001, b"x")));
    // The client's number cannot advance.
    assert!(!check_syn_ack(u32::MAX, &Segment::new_empty(Kind::SynAck, 2000, 0)));
}

#[test]
fn only_a_syn_opens_a_connection() {
    assert!(udp_tcp_copycat::handshake::opens_connection(&Segment::new_empty(Kind::Syn, 5, 0)));
    assert!(!udp_tcp_copycat::handshake::opens_connection(&Segment::new_empty(Kind::Ack, 5, 0)));
    assert!(!udp_tcp_copycat::handshake::opens_connection(&Segment::new(true, true, true, 5, 0, &[])));
}
