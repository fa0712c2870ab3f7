//! The three-way handshake: the client sends a SYN with its initial
//! sequence number, the server answers with a SYN-ACK, and the client
//! acknowledges it. Each side then knows the next sequence number it sends
//! and the next one it expects.

use vstd::prelude::*;
use crate::segment::{Kind, Segment, SegmentView, segment_of_kind};

verus! {

/// The initial sequence number of the server side.
pub const SERVER_INITIAL_SEQ_NUM: u32 = 1000;

/// The SYN that opens a connection from `init_seq_num`.
pub open spec fn syn_spec(init_seq_num: u32) -> SegmentView {
    segment_of_kind(Kind::Syn, init_seq_num, 0, Seq::empty())
}

/// What the client requires of the answer to its SYN (it stops otherwise): its own
/// sequence number can advance past the SYN, the answer acknowledges the
/// SYN, is a SYN-ACK without payload, and the server's number can advance
/// past it.
pub open spec fn syn_ack_acceptable(init_seq_num: u32, syn_ack: SegmentView) -> bool {
    &&& init_seq_num < u32::MAX
    &&& syn_ack.ack_num == init_seq_num + 1
    &&& syn_ack.kind() == Some(Kind::SynAck)
    &&& syn_ack.data.len() == 0
    &&& syn_ack.seq_num < u32::MAX
}

/// The client's answer to an acceptable SYN-ACK: the acknowledgement to
/// send, the next sequence number to send and the next one to expect.
pub open spec fn client_finish_spec(init_seq_num: u32, syn_ack: SegmentView) -> (SegmentView, u32, u32) {
    let send_next = (init_seq_num + 1) as u32;
    let receive_next = (syn_ack.seq_num + 1) as u32;
    (segment_of_kind(Kind::Ack, send_next, receive_next, Seq::empty()), send_next, receive_next)
}

/// The server's answer to a SYN: the SYN-ACK to send, the next sequence
/// number to send and the next one to expect.
pub open spec fn server_answer_spec(syn: SegmentView) -> (SegmentView, u32, u32) {
    let receive_next = (syn.seq_num + 1) as u32;
    (
        segment_of_kind(Kind::SynAck, SERVER_INITIAL_SEQ_NUM, receive_next, Seq::empty()),
        (SERVER_INITIAL_SEQ_NUM + 1) as u32,
        receive_next,
    )
}

/// Whether a segment arriving at a listener opens a new connection: a SYN
/// does; anything else belongs to the connection of its sender.
pub fn opens_connection(segment: &Segment) -> (b: bool)
    ensures
        b == (segment@.kind() == Some(Kind::Syn)),
{
    match segment.kind() {
        Some(Kind::Syn) => true,
        _ => false,
    }
}

/// The SYN that opens a connection from `init_seq_num`.
pub fn client_syn(init_seq_num: u32) -> (s: Segment)
    ensures
        s@ == syn_spec(init_seq_num),
{
    Segment::new_empty(Kind::Syn, init_seq_num, 0)
}

/// Whether the answer to the SYN is one the client can take (see
/// [`syn_ack_acceptable`]).
pub fn check_syn_ack(init_seq_num: u32, syn_ack: &Segment) -> (b: bool)
    ensures
        b == syn_ack_acceptable(init_seq_num, syn_ack@),
{
    let is_syn_ack = match syn_ack.kind() {
        Some(Kind::SynAck) => true,
        _ => false,
    };
    init_seq_num < u32::MAX && syn_ack.ack_num() == init_seq_num + 1 && is_syn_ack
        && syn_ack.data().len() == 0 && syn_ack.seq_num() < u32::MAX
}

/// The client's answer to the SYN-ACK (see [`client_finish_spec`]).
pub fn client_finish(init_seq_num: u32, syn_ack: &Segment) -> (r: (Segment, u32, u32))
    requires
        syn_ack_acceptable(init_seq_num, syn_ack@),
    ensures
        (r.0@, r.1, r.2) == client_finish_spec(init_seq_num, syn_ack@),
{
    let send_next = init_seq_num + 1;
    let receive_next = syn_ack.seq_num() + 1;
    let ack = Segment::new_empty(Kind::Ack, send_next, receive_next);
    (ack, send_next, receive_next)
}

/// The server's answer to a SYN (see [`server_answer_spec`]); the sequence
/// number of the SYN must leave room for the one after it.
pub fn server_answer(syn: &Segment) -> (r: (Segment, u32, u32))
    requires
        syn@.seq_num < u32::MAX,
    ensures
        (r.0@, r.1, r.2) == server_answer_spec(syn@),
{
    let receive_next = syn.seq_num() + 1;
    let syn_ack = Segment::new_empty(Kind::SynAck, SERVER_INITIAL_SEQ_NUM, receive_next);
    (syn_ack, SERVER_INITIAL_SEQ_NUM + 1, receive_next)
}

/// When the server answers the client's SYN, the client accepts the answer,
/// and afterwards each side expects next what the other sends next.
pub proof fn lemma_handshake_agrees(init_seq_num: u32)
    requires
        init_seq_num < u32::MAX,
    ensures
        ({
            let (syn_ack, server_send_next, server_receive_next) = server_answer_spec(
                syn_spec(init_seq_num),
            );
            let (ack, client_send_next, client_receive_next) = client_finish_spec(
                init_seq_num,
                syn_ack,
            );
            &&& syn_ack_acceptable(init_seq_num, syn_ack)
            &&& client_send_next == server_receive_next
            &&& client_receive_next == server_send_next
            &&& ack.seq_num == server_receive_next
            &&& ack.ack_num == server_send_next
        }),
{
}

} // verus!
