use udp_tcp_copycat::connection::PeerAction;
use udp_tcp_copycat::stream::{chunk_done, StreamError, StreamState, CHUNK_LIMIT};

#[test]
fn write_after_shutdown_fails() {
    let mut state = StreamState::new();
    assert_eq!(state.write(9), Ok(9));
    state.shutdown();
    assert!(state.shutdown_sent());
    assert_eq!(state.write(9), Err(StreamError::NotConnected));
}

#[test]
fn too_small_read_buffer_keeps_the_rest() {
    let mut state = StreamState::new();
    let mut buf = [0u8; 5];
    assert!(state.take_pending().is_none());
    let n = state.read_into(&mut buf, b"Some_data".to_vec());
    assert_eq!(n, 5);
    assert_eq!(&buf, b"Some_");

    let pending = state.take_pending().unwrap();
    assert_eq!(pending, b"data".to_vec());
    let mut buf = [0u8; 10];
    let n = state.read_into(&mut buf, pending);
    assert_eq!(n, 4);
    assert_eq!(&buf[0..4], b"data");
    assert_eq!(&buf[4..], &[0u8; 6]);
    assert!(state.take_pending().is_none());
}

#[test]
fn end_of_stream_reads_as_nothing() {
    assert_eq!(PeerAction::Eof.into_bytes(), Vec::<u8>::new());
    assert_eq!(PeerAction::Data(b"abc".to_vec()).into_bytes(), b"abc".to_vec());
    let mut state = StreamState::new();
    let mut buf = [7u8; 3];
    assert_eq!(state.read_into(&mut buf, Vec::new()), 0);
    assert_eq!(buf, [7u8; 3]);
}

#[test]
fn successive_reads_give_back_all_data_in_order() {
    let pieces: Vec<Vec<u8>> = vec![b"first piece".to_vec(), b"2nd".to_vec(), b"the third one".to_vec()];
    let mut queue = pieces.clone().into_iter();
    let mut state = StreamState::new();
    let mut all = Vec::new();
    let lens = [4usize, 1, 7, 3, 3, 20, 2, 2, 2, 2, 2, 2, 2];
    for len in lens {
        let data = match state.take_pending() {
            Some(d) => d,
            None => match queue.next() {
                Some(d) => d,
                None => break,
            },
        };
        let mut buf = vec![0u8; len];
        let n = state.read_into(&mut buf, data);
        assert!(n >= 1 && n <= len);
        all.extend_from_slice(&buf[..n]);
    }
    assert_eq!(all, pieces.concat());
}

#[test]
fn a_download_chunk_ends_at_the_end_of_the_stream() {
    assert!(chunk_done(0, 0));
    assert!(chunk_done(0, 500));
    assert!(!chunk_done(4096, 4096));
}

#[test]
fn a_download_chunk_ends_past_one_megabyte() {
    assert_eq!(CHUNK_LIMIT, 1_000_000);
    assert!(!chunk_done(4096, 1_000_000));
    assert!(chunk_done(4096, 1_000_001));
    assert!(chunk_done(1, 2_000_000));
}
