use bittorrent::{assemble_query, urlencode, Client, Hashes, Info, Torrent, TrackerError, TrackerResponse};

#[test]
fn urlencode_encodes_every_byte() {
    let mut h = [0u8; 20];
    h[0] = 0x00;
    h[1] = 0x0f;
    h[2] = 0xff;
    h[3] = b'a';
    let s = urlencode(&h);
    assert_eq!(s.len(), 60);
    assert!(s.starts_with("%00%0f%ff%61%00"));
}

#[test]
fn query_lists_all_parameters() {
    let t = Torrent {
        announce: "http://tracker.example/announce".to_string(),
        info: Info { length: 100, name: "a".to_string(), piece_length: 64, pieces: Hashes(vec![[7u8; 20]; 2]) },
    };
    let c = Client::new(&t);
    let q = c.query();
    let hash = urlencode(&t.info_hash());
    assert_eq!(
        q,
        format!("info_hash={}&peer_id=00112233445566778899&port=6881&uploaded=0&downloaded=0&left=100&compact=1", hash)
    );
}

#[test]
fn query_form_encodes_peer_id() {
    let t = Torrent {
        announce: "http://t/".to_string(),
        info: Info { length: 0, name: "a".to_string(), piece_length: 1, pieces: Hashes(vec![]) },
    };
    let mut c = Client::new(&t);
    c.peer_id = "a b&c".to_string();
    let q = c.query();
    assert!(q.contains("&peer_id=a+b%26c&port=6881&"));
}

#[test]
fn response_with_two_peers() {
    let mut body = b"d8:intervali900e5:peers12:".to_vec();
    body.extend([192, 168, 1, 10, 0x1a, 0xe1, 10, 0, 0, 1, 0x00, 0x50]);
    body.push(b'e');
    let r = TrackerResponse::from_bytes(&body).unwrap();
    assert_eq!(r.interval, 900);
    assert_eq!(r.peers.0.len(), 2);
    assert_eq!(r.peers.0[0].ip, "192.168.1.10");
    assert_eq!(r.peers.0[0].port, 6881);
    assert_eq!(r.peers.0[1].ip, "10.0.0.1");
    assert_eq!(r.peers.0[1].port, 80);
    assert_eq!(r.peers.0[1].to_string(), "10.0.0.1:80");
}

#[test]
fn response_with_seven_peer_bytes_fails() {
    let mut body = b"d8:intervali900e5:peers7:".to_vec();
    body.extend([1, 2, 3, 4, 5, 6, 7]);
    body.push(b'e');
    assert_eq!(TrackerResponse::from_bytes(&body).unwrap_err(), TrackerError::InvalidLength(7));
}

#[test]
fn response_with_no_peers() {
    let r = TrackerResponse::from_bytes(b"d8:intervali60e5:peers0:e").unwrap();
    assert_eq!(r.interval, 60);
    assert!(r.peers.0.is_empty());
}

#[test]
fn response_with_peer_dictionaries_is_unsupported() {
    let body = b"d8:intervali900e5:peersld2:ip8:10.0.0.14:porti80eeee";
    assert_eq!(TrackerResponse::from_bytes(body).unwrap_err(), TrackerError::UnsupportedPeerFormat);
}

#[test]
fn response_protocol_errors() {
    assert_eq!(TrackerResponse::from_bytes(b"not bencode").unwrap_err(), TrackerError::Protocol);
    assert_eq!(TrackerResponse::from_bytes(b"d5:peers0:e").unwrap_err(), TrackerError::Protocol);
    assert_eq!(TrackerResponse::from_bytes(b"d8:intervali-1e5:peers0:e").unwrap_err(), TrackerError::Protocol);
    assert_eq!(TrackerResponse::from_bytes(b"d8:intervali5ee").unwrap_err(), TrackerError::Protocol);
    assert_eq!(
        TrackerResponse::from_bytes(b"d14:failure reason4:nopee").unwrap_err(),
        TrackerError::Protocol
    );
}

#[test]
fn assembled_query_puts_hash_first() {
    let mut h = [0xabu8; 20];
    h[19] = 0x01;
    let q = assemble_query(&h, "peer_id=x&compact=1");
    let expected = format!("info_hash={}%01&peer_id=x&compact=1", "%ab".repeat(19));
    assert_eq!(q, expected);
}

#[test]
fn response_with_two_other_peers() {
    let mut body = b"d8:intervali900e5:peers12:".to_vec();
    body.extend([192, 168, 1, 2, 0x1a, 0xe1, 10, 0, 0, 255, 0x00, 0x50]);
    body.push(b'e');
    let r = TrackerResponse::from_bytes(&body).unwrap();
    let shown: Vec<String> = r.peers.0.iter().map(|p| p.to_string()).collect();
    assert_eq!(shown, vec!["192.168.1.2:6881".to_string(), "10.0.0.255:80".to_string()]);
}

#[test]
fn response_with_one_record_and_a_byte_fails() {
    let mut body = b"d8:intervali900e5:peers7:".to_vec();
    body.extend([1, 2, 3, 4, 0x1a, 0xe1, 9]);
    body.push(b'e');
    assert_eq!(TrackerResponse::from_bytes(&body).unwrap_err(), TrackerError::InvalidLength(7));
}

#[test]
fn query_percent_encodes_utf8_in_uppercase() {
    let t = Torrent {
        announce: "http://t/".to_string(),
        info: Info { length: 0, name: "a".to_string(), piece_length: 1, pieces: Hashes(vec![]) },
    };
    let mut c = Client::new(&t);
    c.peer_id = "é*-._~".to_string();
    assert!(c.query().contains("&peer_id=%C3%A9*-._%7E&port="));
}
