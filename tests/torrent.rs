use bittorrent::{decode, Client, DecodeError, Field, Hashes, Info, Torrent, TorrentError, Value};

fn sample_info() -> Info {
    let pieces: Vec<u8> = (0u8..60).collect();
    Info {
        length: 92063,
        name: "sample.txt".to_string(),
        piece_length: 32768,
        pieces: Hashes::from_bytes(&pieces).unwrap(),
    }
}

fn sample_torrent_bytes() -> Vec<u8> {
    let mut b = b"d8:announce31:http://tracker.example/announce4:info".to_vec();
    b.extend(sample_info().encode());
    b.push(b'e');
    b
}

fn hex(b: &[u8]) -> String {
    b.iter().map(|x| format!("{:02x}", x)).collect()
}

#[test]
fn info_encodes_canonically() {
    let mut expected = b"d6:lengthi92063e4:name10:sample.txt12:piece lengthi32768e6:pieces60:".to_vec();
    expected.extend(0u8..60);
    expected.push(b'e');
    assert_eq!(sample_info().encode(), expected);
}

#[test]
fn info_round_trips() {
    let info = sample_info();
    let bytes = info.encode();
    let back = Info::from_bytes(&bytes).unwrap();
    assert_eq!(back, info);
    assert_eq!(back.encode(), bytes);
}

#[test]
fn info_round_trips_with_unicode_name() {
    let info = Info { length: 0, name: "données ✓".to_string(), piece_length: 1, pieces: Hashes(vec![]) };
    assert_eq!(Info::from_bytes(&info.encode()).unwrap(), info);
}

#[test]
fn info_hash_is_pinned() {
    let t = Torrent::from_bytes(&sample_torrent_bytes()).unwrap();
    assert_eq!(hex(&t.info_hash()), "f519c3a24144a8649e58efc3e359b51a386054d6");
}

#[test]
fn info_hash_is_deterministic() {
    let t = Torrent::from_bytes(&sample_torrent_bytes()).unwrap();
    assert_eq!(t.info_hash(), t.info_hash());
}

#[test]
fn info_hash_ignores_input_key_order() {
    let mut b = b"d8:announce9:http://t/4:infod4:name10:sample.txt6:pieces60:".to_vec();
    b.extend(0u8..60);
    b.extend(b"12:piece lengthi32768e6:lengthi92063eee");
    let t = Torrent::from_bytes(&b).unwrap();
    assert_eq!(hex(&t.info_hash()), "f519c3a24144a8649e58efc3e359b51a386054d6");
}

#[test]
fn torrent_fields_are_read() {
    let t = Torrent::from_bytes(&sample_torrent_bytes()).unwrap();
    assert_eq!(t.announce, "http://tracker.example/announce");
    assert_eq!(t.info, sample_info());
}

#[test]
fn torrent_errors_name_the_field() {
    assert_eq!(Torrent::from_bytes(b"i1e"), Err(TorrentError::NotADictionary(Field::Torrent)));
    assert_eq!(Torrent::from_bytes(b"de"), Err(TorrentError::Missing(Field::Announce)));
    assert_eq!(Torrent::from_bytes(b"d8:announcei1ee"), Err(TorrentError::WrongType(Field::Announce)));
    assert_eq!(Torrent::from_bytes(b"d8:announce1:xe"), Err(TorrentError::InvalidUrl));
    assert_eq!(Torrent::from_bytes(b"d8:announce9:http://t/e"), Err(TorrentError::Missing(Field::Info)));
    assert_eq!(Torrent::from_bytes(b"d8:announce2:\xff\xfe4:infodee"), Err(TorrentError::InvalidText(Field::Announce)));
    assert_eq!(Torrent::from_bytes(b"d8:announce9:http://t/4:infoi1ee"), Err(TorrentError::NotADictionary(Field::Info)));
    assert_eq!(Torrent::from_bytes(b"d8:announce9:http://t/4:infodee"), Err(TorrentError::Missing(Field::Length)));
    assert_eq!(
        Torrent::from_bytes(b"d8:announce9:http://t/4:infod6:lengthi-1eee"),
        Err(TorrentError::WrongType(Field::Length))
    );
    assert_eq!(
        Torrent::from_bytes(b"d8:announce9:http://t/4:infod6:lengthi1e4:name1:a12:piece lengthi2e6:pieces3:abcee"),
        Err(TorrentError::InvalidLength(Field::Pieces, 3))
    );
    assert_eq!(Torrent::from_bytes(b"de1:x"), Err(TorrentError::TrailingBytes));
    assert_eq!(Torrent::from_bytes(b"d8:announce"), Err(TorrentError::Decode(DecodeError::Truncated)));
}

#[test]
fn info_from_generic_value() {
    let (v, _) = decode(&sample_info().encode()).unwrap();
    assert_eq!(Info::from_value(&v).unwrap(), sample_info());
    assert_eq!(Info::from_value(&Value::Integer(3)), Err(TorrentError::NotADictionary(Field::Info)));
}

#[test]
fn client_starts_fresh() {
    let t = Torrent::from_bytes(&sample_torrent_bytes()).unwrap();
    let c = Client::new(&t);
    assert_eq!(c.peer_id, "00112233445566778899");
    assert_eq!(c.port, 6881);
    assert_eq!(c.uploaded, 0);
    assert_eq!(c.downloaded, 0);
    assert_eq!(c.left, 92063);
}

#[test]
fn zero_piece_length_is_refused() {
    assert_eq!(
        Torrent::from_bytes(b"d8:announce9:http://t/4:infod6:lengthi1e4:name1:a12:piece lengthi0e6:pieces0:ee"),
        Err(TorrentError::WrongType(Field::PieceLength))
    );
}

#[test]
fn info_hash_over_any_three_pieces() {
    let mut pieces = vec![0xaau8; 20];
    pieces.extend(vec![0x00u8; 20]);
    pieces.extend(vec![0xffu8; 20]);
    let info = Info { length: 92063, name: "sample.txt".to_string(), piece_length: 32768, pieces: Hashes::from_bytes(&pieces).unwrap() };
    let t = Torrent { announce: "http://t/".to_string(), info };
    let h = t.info_hash();
    assert_eq!(h.len(), 20);
    assert_eq!(hex(&h).len(), 40);
    assert_eq!(hex(&h), "c40c2ed5254d52cb4f05430990b93c37049a2639");
    assert_eq!(t.info_hash(), h);
}
