use udp_tcp_copycat::segment::{Kind, Segment};

#[test]
fn decode_of_short_input_fails() {
    assert_eq!(Segment::decode(&[]), None);
    assert_eq!(Segment::decode(&[0, 0, 0, 0, 0, 0, 0, 0]), None);
}

#[test]
fn decode_reads_flags_numbers_and_data() {
    let seg = Segment::decode(&[0b0100_0000, 0, 0, 1, 2, 0, 1, 0, 0, 9, 8]).unwrap();
    assert_eq!(seg.kind(), Some(Kind::Ack));
    assert_eq!(seg.seq_num(), 258);
    assert_eq!(seg.ack_num(), 65536);
    assert_eq!(seg.data(), &[9, 8]);
    // The low bits of the flag byte are ignored.
    let seg2 = Segment::decode(&[0b0101_1111, 0, 0, 1, 2, 0, 1, 0, 0, 9, 8]).unwrap();
    assert_eq!(seg, seg2);
}

#[test]
fn kinds_and_flags() {
    assert_eq!(Segment::new_empty(Kind::Syn, 0, 0).encode()[0], 0b1000_0000);
    assert_eq!(Segment::new_empty(Kind::SynAck, 0, 0).encode()[0], 0b1100_0000);
    assert_eq!(Segment::new_empty(Kind::Ack, 0, 0).encode()[0], 0b0100_0000);
    assert_eq!(Segment::new_empty(Kind::Fin, 0, 0).encode()[0], 0b0010_0000);
    for kind in [Kind::Syn, Kind::SynAck, Kind::Ack, Kind::Fin] {
        assert_eq!(Segment::new_empty(kind, 1, 2).kind(), Some(kind));
    }
    assert_eq!(Segment::new(true, true, true, 0, 0, &[]).kind(), None);
    assert_eq!(Segment::new(false, false, false, 0, 0, &[]).kind(), None);
}

#[test]
fn set_ack_num_changes_only_the_ack_num() {
    let seg = Segment::with_kind(Kind::Ack, 5, 6, b"abc");
    let seg2 = seg.set_ack_num(99);
    assert_eq!(seg2, Segment::with_kind(Kind::Ack, 5, 99, b"abc"));
    assert_eq!(seg.ack_num(), 6);
    assert_eq!(seg2.to_data(), b"abc".to_vec());
}

#[test]
fn encode_then_decode_then_encode() {
    let bytes = vec![0b1010_0000, 255, 0, 1, 2, 3, 4, 5, 6, 42];
    let seg = Segment::decode(&bytes).unwrap();
    assert_eq!(seg.encode(), bytes);
}

#[test]
fn kind_from_sample() {
    assert_eq!(Kind::from_sample(0), Kind::Syn);
    assert_eq!(Kind::from_sample(1), Kind::SynAck);
    assert_eq!(Kind::from_sample(6), Kind::Ack);
    assert_eq!(Kind::from_sample(u32::MAX), Kind::Fin);
    let k = Kind::random();
    assert!([Kind::Syn, Kind::SynAck, Kind::Ack, Kind::Fin].contains(&k));
}
