use bittorrent::{decode_chunks, ChunkError, Hashes, Peer, Peers};

#[test]
fn chunks_keep_input_order() {
    let b: Vec<u8> = (0u8..12).collect();
    let cs = decode_chunks(&b, 4).unwrap();
    assert_eq!(cs, vec![vec![0, 1, 2, 3], vec![4, 5, 6, 7], vec![8, 9, 10, 11]]);
}

#[test]
fn chunks_refuse_ragged_input() {
    assert_eq!(decode_chunks(&[1, 2, 3, 4, 5], 4), Err(ChunkError::InvalidLength(5)));
}

#[test]
fn empty_runs_decode_to_nothing() {
    assert_eq!(decode_chunks(&[], 20), Ok(vec![]));
    assert_eq!(Hashes::from_bytes(&[]).unwrap().0.len(), 0);
    assert_eq!(Peers::from_bytes(&[]).unwrap().0.len(), 0);
}

#[test]
fn hashes_split_and_join() {
    let b: Vec<u8> = (0u8..60).collect();
    let h = Hashes::from_bytes(&b).unwrap();
    assert_eq!(h.0.len(), 3);
    assert_eq!(h.0[1][0], 20);
    assert_eq!(h.0[2][19], 59);
    assert_eq!(h.to_bytes(), b);
}

#[test]
fn hashes_refuse_partial_hash() {
    assert_eq!(Hashes::from_bytes(&[0u8; 21]).unwrap_err(), ChunkError::InvalidLength(21));
}

#[test]
fn peer_from_record() {
    let p = Peer::from_record(&[192, 168, 1, 10, 0x1a, 0xe1]);
    assert_eq!(p.ip, "192.168.1.10");
    assert_eq!(p.port, 6881);
    assert_eq!(p.to_string(), "192.168.1.10:6881");
}

#[test]
fn peer_extremes() {
    let p = Peer::from_record(&[0, 0, 0, 0, 0, 0]);
    assert_eq!(p.to_string(), "0.0.0.0:0");
    let p = Peer::from_record(&[255, 255, 255, 255, 255, 255]);
    assert_eq!(p.to_string(), "255.255.255.255:65535");
}

#[test]
fn peers_refuse_seven_bytes() {
    assert_eq!(Peers::from_bytes(&[1, 2, 3, 4, 5, 6, 7]).unwrap_err(), ChunkError::InvalidLength(7));
}
