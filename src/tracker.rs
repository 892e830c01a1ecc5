//! The pure parts of a tracker announce: the query string of the request
//! and the decoding of the response body.
use vstd::prelude::*;
use vstd::string::StringExecFns;
use vstd::utf8::encode_utf8;
use crate::bencode::{decode, decode_spec, SValue, Value};
use crate::chunks::{lemma_dec_ascii, peers_of, ChunkError, Peers};
use crate::decimal::{dec, push_decimal};
use crate::text::{ascii_string, ascii_text, hex_encode, hex_text};
use crate::torrent::{dict_get, info_hash_of, lookup, Torrent};

verus! {

broadcast use {vstd::std_specs::vec::group_vec_axioms, vstd::seq::group_seq_axioms};

/// `%XX` for every byte, two lowercase hexadecimal digits each.
pub open spec fn percent_text(b: Seq<u8>) -> Seq<char>
    decreases b.len(),
{
    if b.len() == 0 {
        Seq::empty()
    } else {
        percent_text(b.drop_last()) + seq!['%'] + hex_text(seq![b.last()])
    }
}

/// Percent-encodes every byte of a raw info hash, whatever its value.
pub fn urlencode(t: &[u8; 20]) -> (r: String)
    ensures
        r@ == percent_text(t@),
{
    let mut out = String::new();
    let mut i: usize = 0;
    while i < 20
        invariant
            i <= 20,
            out@ == percent_text(t@.subrange(0, i as int)),
        decreases 20 - i,
    {
        let one: Vec<u8> = vec![t[i]];
        let h = hex_encode(one.as_slice());
        let ghost before = out@;
        proof {
            reveal_strlit("%");
        }
        out.append("%");
        out.append(h.as_str());
        assert(out@ =~= before + seq!['%'] + hex_text(one@));
        assert(t@.subrange(0, i + 1).drop_last() =~= t@.subrange(0, i as int));
        assert(one@ =~= seq![t@.subrange(0, i + 1).last()]);
        i = i + 1;
    }
    assert(t@.subrange(0, 20) =~= t@);
    out
}

/// Bytes that form-urlencoding writes as they are: `*-._`, digits, letters.
pub open spec fn form_unchanged(b: u8) -> bool {
    b == 42 || b == 45 || b == 46 || (48 <= b <= 57) || (65 <= b <= 90) || b == 95 || (97 <= b <= 122)
}

/// An uppercase hexadecimal digit, `0 <= d < 16`.
pub open spec fn upper_hex_digit(d: int) -> char {
    if d < 10 {
        ((48 + d) as u8) as char
    } else {
        ((55 + d) as u8) as char
    }
}

/// One byte, form-urlencoded: kept, a space as `+`, anything else as `%XX`.
pub open spec fn form_byte(b: u8) -> Seq<char> {
    if form_unchanged(b) {
        seq![b as char]
    } else if b == 32 {
        seq!['+']
    } else {
        seq!['%', upper_hex_digit(b as int / 16), upper_hex_digit(b as int % 16)]
    }
}

pub open spec fn form_bytes(bs: Seq<u8>) -> Seq<char>
    decreases bs.len(),
{
    if bs.len() == 0 {
        Seq::empty()
    } else {
        form_bytes(bs.drop_last()) + form_byte(bs.last())
    }
}

/// Text form-urlencoded through its UTF-8 bytes.
pub open spec fn form_text(s: Seq<char>) -> Seq<char> {
    form_bytes(encode_utf8(s))
}

/// Name/value pairs form-urlencoded as `name=value`, joined by `&`.
pub open spec fn form_pairs(ps: Seq<(Seq<char>, Seq<char>)>) -> Seq<char>
    decreases ps.len(),
{
    if ps.len() == 0 {
        Seq::empty()
    } else {
        let p = ps.last();
        let last = form_text(p.0) + seq!['='] + form_text(p.1);
        if ps.len() == 1 {
            last
        } else {
            form_pairs(ps.drop_last()) + seq!['&'] + last
        }
    }
}

/// Relies on `serde_urlencoded::to_string` on a sequence of string pairs: it
/// succeeds on strings, and writes each pair with `form_urlencoded`'s
/// `append_pair` (bytes as `byte_serialize` maps them, `&` between pairs).
#[verifier::external_body]
fn form_urlencode(pairs: &Vec<(String, String)>) -> (r: Option<String>)
    ensures
        r is Some,
        r->0@ == form_pairs(Seq::new(pairs@.len(), |i: int| (pairs@[i].0@, pairs@[i].1@))),
{
    serde_urlencoded::to_string(pairs).ok()
}

/// `info_hash=<percent-encoded hash>&<form>`: the query string of an
/// announce around already form-encoded parameters.
pub fn assemble_query(info_hash: &[u8; 20], form: &str) -> (r: String)
    ensures
        r@ == seq!['i', 'n', 'f', 'o', '_', 'h', 'a', 's', 'h', '='] + percent_text(info_hash@) + seq!['&']
            + form@,
{
    proof {
        reveal_strlit("info_hash=");
        reveal_strlit("&");
    }
    let mut q = String::from_str("info_hash=");
    q.append(urlencode(info_hash).as_str());
    q.append("&");
    q.append(form);
    assert(q@ =~= seq!['i', 'n', 'f', 'o', '_', 'h', 'a', 's', 'h', '='] + percent_text(info_hash@)
        + seq!['&'] + form@);
    q
}

/// The peer id a new client announces.
pub open spec fn default_peer_id() -> Seq<char> {
    seq!['0', '0', '1', '1', '2', '2', '3', '3', '4', '4', '5', '5', '6', '6', '7', '7', '8', '8', '9', '9']
}

/// A session with one torrent's tracker: the counters it reports.
#[derive(Debug)]
pub struct Client<'a> {
    pub peer_id: String,
    pub port: u16,
    pub uploaded: u64,
    pub downloaded: u64,
    pub left: u64,
    pub torrent: &'a Torrent,
}

/// Decimal text.
pub open spec fn dec_text(n: nat) -> Seq<char> {
    ascii_text(dec(n))
}

/// The form parameters of an announce, in order.
pub open spec fn announce_params(c: Client) -> Seq<(Seq<char>, Seq<char>)> {
    seq![
        (seq!['p', 'e', 'e', 'r', '_', 'i', 'd'], c.peer_id@),
        (seq!['p', 'o', 'r', 't'], dec_text(c.port as nat)),
        (seq!['u', 'p', 'l', 'o', 'a', 'd', 'e', 'd'], dec_text(c.uploaded as nat)),
        (seq!['d', 'o', 'w', 'n', 'l', 'o', 'a', 'd', 'e', 'd'], dec_text(c.downloaded as nat)),
        (seq!['l', 'e', 'f', 't'], dec_text(c.left as nat)),
        (seq!['c', 'o', 'm', 'p', 'a', 'c', 't'], seq!['1']),
    ]
}

/// The query string of an announce: the percent-encoded info hash, then
/// the form-urlencoded parameters.
pub open spec fn announce_query(c: Client) -> Seq<char> {
    seq!['i', 'n', 'f', 'o', '_', 'h', 'a', 's', 'h', '='] + percent_text(info_hash_of(c.torrent.info@))
        + seq!['&'] + form_pairs(announce_params(c))
}

fn decimal_string(n: u64) -> (r: String)
    ensures
        r@ == dec_text(n as nat),
{
    let mut b: Vec<u8> = Vec::new();
    push_decimal(&mut b, n);
    assert(b@ =~= dec(n as nat));
    proof {
        lemma_dec_ascii(n as nat);
    }
    ascii_string(b)
}

impl<'a> Client<'a> {
    /// A fresh session: nothing transferred, the whole file left.
    pub fn new(torrent: &'a Torrent) -> (r: Client<'a>)
        ensures
            r.peer_id@ == default_peer_id(),
            r.port == 6881,
            r.uploaded == 0,
            r.downloaded == 0,
            r.left == torrent.info.length,
            r.torrent == torrent,
    {
        proof {
            reveal_strlit("00112233445566778899");
        }
        let peer_id = String::from_str("00112233445566778899");
        assert(peer_id@ =~= default_peer_id());
        Client { peer_id, left: torrent.info.length, port: 6881, uploaded: 0, downloaded: 0, torrent }
    }

    /// The query string of an announce.
    pub fn query(&self) -> (r: String)
        ensures
            r@ == announce_query(*self),
    {
        proof {
            reveal_strlit("peer_id");
            reveal_strlit("port");
            reveal_strlit("uploaded");
            reveal_strlit("downloaded");
            reveal_strlit("left");
            reveal_strlit("compact");
            reveal_strlit("1");
        }
        let pairs: Vec<(String, String)> = vec![
            (String::from_str("peer_id"), self.peer_id.clone()),
            (String::from_str("port"), decimal_string(self.port as u64)),
            (String::from_str("uploaded"), decimal_string(self.uploaded)),
            (String::from_str("downloaded"), decimal_string(self.downloaded)),
            (String::from_str("left"), decimal_string(self.left)),
            (String::from_str("compact"), String::from_str("1")),
        ];
        proof {
            let ps = announce_params(*self);
            assert(pairs@[0].0@ =~= ps[0].0);
            assert(pairs@[1].0@ =~= ps[1].0);
            assert(pairs@[2].0@ =~= ps[2].0);
            assert(pairs@[3].0@ =~= ps[3].0);
            assert(pairs@[4].0@ =~= ps[4].0);
            assert(pairs@[5].0@ =~= ps[5].0);
            assert(pairs@[5].1@ =~= ps[5].1);
            assert(Seq::new(pairs@.len(), |i: int| (pairs@[i].0@, pairs@[i].1@)) =~= ps);
        }
        let form = match form_urlencode(&pairs) {
            Some(f) => f,
            None => String::new(),
        };
        let hash = self.torrent.info_hash();
        assemble_query(&hash, form.as_str())
    }
}

/// Why a tracker response body cannot be used.
#[derive(Debug, Clone, Copy, PartialEq, Eq, Structural)]
pub enum TrackerError {
    /// The body is not one bencode dictionary with an `interval` integer and
    /// a `peers` entry.
    Protocol,
    /// `peers` is a list of dictionaries, not the compact byte run.
    UnsupportedPeerFormat,
    /// The compact `peers` run, of the length held, is not a whole number
    /// of 6-byte records.
    InvalidLength(usize),
}

pub open spec fn key_interval() -> Seq<u8> {
    seq![105u8, 110, 116, 101, 114, 118, 97, 108]
}

pub open spec fn key_peers() -> Seq<u8> {
    seq![112u8, 101, 101, 114, 115]
}

/// The interval and the compact peer run of a response body, or why there
/// are none.
pub open spec fn response_fields(s: Seq<u8>) -> Result<(int, Seq<u8>), TrackerError> {
    match decode_spec(s) {
        Err(_) => Err(TrackerError::Protocol),
        Ok((v, n)) => if n != s.len() {
            Err(TrackerError::Protocol)
        } else {
            match v {
                SValue::Dict(es) => match dict_get(es, key_interval()) {
                    Some(SValue::Int(i)) => if 0 <= i <= u64::MAX {
                        match dict_get(es, key_peers()) {
                            Some(SValue::Bytes(b)) => if b.len() % 6 != 0 {
                                Err(TrackerError::InvalidLength(b.len() as usize))
                            } else {
                                Ok((i, b))
                            },
                            Some(SValue::List(_)) => Err(TrackerError::UnsupportedPeerFormat),
                            _ => Err(TrackerError::Protocol),
                        }
                    } else {
                        Err(TrackerError::Protocol)
                    },
                    _ => Err(TrackerError::Protocol),
                },
                _ => Err(TrackerError::Protocol),
            }
        },
    }
}

/// A tracker's answer to an announce.
#[derive(Debug, Clone)]
pub struct TrackerResponse {
    /// Seconds until the next announce.
    pub interval: u64,
    pub peers: Peers,
}

impl TrackerResponse {
    /// Decodes a response body: one dictionary and nothing after it.
    pub fn from_bytes(body: &[u8]) -> (r: Result<TrackerResponse, TrackerError>)
        ensures
            r is Ok <==> response_fields(body@) is Ok,
            r matches Ok(t) ==> {
                &&& response_fields(body@) matches Ok((i, b))
                &&& t.interval as int == i
                &&& peers_of(t.peers.0@, b)
            },
            r matches Err(e) ==> response_fields(body@) == Err::<(int, Seq<u8>), TrackerError>(e),
    {
        let (v, n) = match decode(body) {
            Ok(p) => p,
            Err(_) => return Err(TrackerError::Protocol),
        };
        if n != body.len() {
            return Err(TrackerError::Protocol);
        }
        let es = match &v {
            Value::Dict(es) => es,
            _ => return Err(TrackerError::Protocol),
        };
        let interval = match lookup(es, &[105u8, 110, 116, 101, 114, 118, 97, 108]) {
            Some(Value::Integer(i)) => {
                if *i < 0 {
                    return Err(TrackerError::Protocol);
                }
                *i as u64
            },
            _ => return Err(TrackerError::Protocol),
        };
        let peers = match lookup(es, &[112u8, 101, 101, 114, 115]) {
            Some(Value::Bytes(b)) => match Peers::from_bytes(b.as_slice()) {
                Ok(ps) => ps,
                Err(_) => return Err(TrackerError::InvalidLength(b.len() as usize)),
            },
            Some(Value::List(_)) => return Err(TrackerError::UnsupportedPeerFormat),
            _ => return Err(TrackerError::Protocol),
        };
        Ok(TrackerResponse { interval, peers })
    }
}
} // verus!
