//! The torrent metadata model on top of the generic bencode value, and the
//! info hash.
use vstd::prelude::*;
use vstd::utf8::{decode_utf8, encode_utf8, encode_utf8_decode_utf8, encode_utf8_valid_utf8, valid_utf8};
use crate::bencode::{
    decode, decode_spec, enc, enc_bytes, enc_dict, entry_models, lemma_entry_models,
    lemma_parse_complete, parse_value, push_bytes, value_model, wf_dict, wf_value, DecodeError,
    SValue, Value, MAX_DEPTH,
};
use crate::decimal::{dec, dec_int, push_decimal};
use crate::chunks::{chunks_of, concat_hashes, ChunkError, Hashes};
use crate::text::{copy_bytes, utf8_text};

verus! {

broadcast use {vstd::std_specs::vec::group_vec_axioms, vstd::seq::group_seq_axioms};

/// A field of the metadata schema, named in errors.
#[derive(Debug, Clone, Copy, PartialEq, Eq, Structural)]
pub enum Field {
    /// The top-level dictionary.
    Torrent,
    Announce,
    Info,
    Length,
    Name,
    PieceLength,
    Pieces,
}

/// Why bytes are not a torrent's metadata.
#[derive(Debug, Clone, Copy, PartialEq, Eq, Structural)]
pub enum TorrentError {
    /// The bytes are not bencode.
    Decode(DecodeError),
    /// Bytes follow the top-level value.
    TrailingBytes,
    /// The value is not a dictionary where one is required.
    NotADictionary(Field),
    /// A required key is absent.
    Missing(Field),
    /// A key holds a value of the wrong kind or out of range (a piece
    /// length must be positive).
    WrongType(Field),
    /// A text field is not valid UTF-8.
    InvalidText(Field),
    /// The `pieces` run, of the length held, is not a whole number of
    /// 20-byte hashes.
    InvalidLength(Field, usize),
    /// The announce text is not an absolute URL.
    InvalidUrl,
}

pub open spec fn key_announce() -> Seq<u8> {
    seq![97u8, 110, 110, 111, 117, 110, 99, 101]
}

pub open spec fn key_info() -> Seq<u8> {
    seq![105u8, 110, 102, 111]
}

pub open spec fn key_length() -> Seq<u8> {
    seq![108u8, 101, 110, 103, 116, 104]
}

pub open spec fn key_name() -> Seq<u8> {
    seq![110u8, 97, 109, 101]
}

pub open spec fn key_piece_length() -> Seq<u8> {
    seq![112u8, 105, 101, 99, 101, 32, 108, 101, 110, 103, 116, 104]
}

pub open spec fn key_pieces() -> Seq<u8> {
    seq![112u8, 105, 101, 99, 101, 115]
}

/// The value under the first entry with key `k`.
pub open spec fn dict_get(es: Seq<(Seq<u8>, SValue)>, k: Seq<u8>) -> Option<SValue>
    decreases es.len(),
{
    if es.len() == 0 {
        None
    } else if es[0].0 == k {
        Some(es[0].1)
    } else {
        dict_get(es.drop_first(), k)
    }
}

/// Mathematical form of `Info`.
pub struct InfoModel {
    pub length: int,
    pub name: Seq<char>,
    pub piece_length: int,
    pub pieces: Seq<Seq<u8>>,
}

/// Mathematical form of `Torrent`.
pub struct TorrentModel {
    pub announce: Seq<char>,
    pub info: InfoModel,
}

/// The single-file part of a torrent's metadata.
#[derive(Debug, Clone, PartialEq, Eq)]
pub struct Info {
    /// Size of the file in bytes.
    pub length: u64,
    /// Suggested name to save the file as.
    pub name: String,
    /// Number of bytes in each piece.
    pub piece_length: u64,
    /// SHA-1 hashes of the pieces.
    pub pieces: Hashes,
}

/// A torrent's metadata.
#[derive(Debug, Clone, PartialEq, Eq)]
pub struct Torrent {
    /// URL of the tracker.
    pub announce: String,
    pub info: Info,
}

impl View for Info {
    type V = InfoModel;

    open spec fn view(&self) -> InfoModel {
        InfoModel {
            length: self.length as int,
            name: self.name@,
            piece_length: self.piece_length as int,
            pieces: Seq::new(self.pieces.0@.len(), |i: int| self.pieces.0@[i]@),
        }
    }
}

impl View for Torrent {
    type V = TorrentModel;

    open spec fn view(&self) -> TorrentModel {
        TorrentModel { announce: self.announce@, info: self.info@ }
    }
}

/// An `Info` model that `Info` can hold.
pub open spec fn info_wf(m: InfoModel) -> bool {
    &&& 0 <= m.length <= u64::MAX
    &&& 0 < m.piece_length <= u64::MAX
    &&& forall|i: int| 0 <= i < m.pieces.len() ==> (#[trigger] m.pieces[i]).len() == 20
}

/// The pieces one after another.
pub open spec fn concat_pieces(ps: Seq<Seq<u8>>) -> Seq<u8>
    decreases ps.len(),
{
    if ps.len() == 0 {
        Seq::empty()
    } else {
        concat_pieces(ps.drop_last()) + ps.last()
    }
}

/// The canonical dictionary of an `Info`: keys in ascending byte order.
pub open spec fn info_value(m: InfoModel) -> SValue {
    SValue::Dict(
        seq![
            (key_length(), SValue::Int(m.length)),
            (key_name(), SValue::Bytes(encode_utf8(m.name))),
            (key_piece_length(), SValue::Int(m.piece_length)),
            (key_pieces(), SValue::Bytes(concat_pieces(m.pieces))),
        ],
    )
}

/// A non-negative integer that fits `u64` under key `k`.
pub open spec fn u64_field(es: Seq<(Seq<u8>, SValue)>, k: Seq<u8>, f: Field) -> Result<int, TorrentError> {
    match dict_get(es, k) {
        None => Err(TorrentError::Missing(f)),
        Some(SValue::Int(i)) => if 0 <= i <= u64::MAX {
            Ok(i)
        } else {
            Err(TorrentError::WrongType(f))
        },
        Some(_) => Err(TorrentError::WrongType(f)),
    }
}

/// UTF-8 text under key `k`.
pub open spec fn text_field(es: Seq<(Seq<u8>, SValue)>, k: Seq<u8>, f: Field) -> Result<Seq<char>, TorrentError> {
    match dict_get(es, k) {
        None => Err(TorrentError::Missing(f)),
        Some(SValue::Bytes(b)) => if valid_utf8(b) {
            Ok(decode_utf8(b))
        } else {
            Err(TorrentError::InvalidText(f))
        },
        Some(_) => Err(TorrentError::WrongType(f)),
    }
}

/// The `Info` that a generic value describes, or the first field that fails.
pub open spec fn info_of(v: SValue) -> Result<InfoModel, TorrentError> {
    match v {
        SValue::Dict(es) => match u64_field(es, key_length(), Field::Length) {
            Err(e) => Err(e),
            Ok(length) => match text_field(es, key_name(), Field::Name) {
                Err(e) => Err(e),
                Ok(name) => match u64_field(es, key_piece_length(), Field::PieceLength) {
                    Err(e) => Err(e),
                    Ok(piece_length) => if piece_length == 0 {
                        Err(TorrentError::WrongType(Field::PieceLength))
                    } else {
                        match dict_get(es, key_pieces()) {
                        None => Err(TorrentError::Missing(Field::Pieces)),
                        Some(SValue::Bytes(b)) => if b.len() % 20 != 0 {
                            Err(TorrentError::InvalidLength(Field::Pieces, b.len() as usize))
                        } else {
                            Ok(
                                InfoModel {
                                    length,
                                    name,
                                    piece_length,
                                    pieces: chunks_of(b, 20),
                                },
                            )
                        },
                        Some(_) => Err(TorrentError::WrongType(Field::Pieces)),
                    }
                    },
                },
            },
        },
        _ => Err(TorrentError::NotADictionary(Field::Info)),
    }
}

/// Whether text parses as an absolute URL.
pub uninterp spec fn url_parses(s: Seq<char>) -> bool;

/// Relies on `reqwest::Url::parse` (the `url` crate's parser): whether the
/// text is an absolute URL. The answer depends on the text alone.
#[verifier::external_body]
fn is_url(s: &str) -> (r: bool)
    ensures
        r == url_parses(s@),
{
    reqwest::Url::parse(s).is_ok()
}

/// The torrent that a generic value describes, or the first field that fails.
pub open spec fn torrent_of(v: SValue) -> Result<TorrentModel, TorrentError> {
    match v {
        SValue::Dict(es) => match text_field(es, key_announce(), Field::Announce) {
            Err(e) => Err(e),
            Ok(announce) => if !url_parses(announce) {
                Err(TorrentError::InvalidUrl)
            } else {
                match dict_get(es, key_info()) {
                    None => Err(TorrentError::Missing(Field::Info)),
                    Some(iv) => match info_of(iv) {
                        Err(e) => Err(e),
                        Ok(info) => Ok(TorrentModel { announce, info }),
                    },
                }
            },
        },
        _ => Err(TorrentError::NotADictionary(Field::Torrent)),
    }
}

/// The bytes hold exactly one bencode value; that value.
pub open spec fn whole_value(s: Seq<u8>) -> Result<SValue, TorrentError> {
    match decode_spec(s) {
        Err(e) => Err(TorrentError::Decode(e)),
        Ok((v, n)) => if n != s.len() {
            Err(TorrentError::TrailingBytes)
        } else {
            Ok(v)
        },
    }
}

/// What `Info::from_bytes` answers.
pub open spec fn info_from_bytes(s: Seq<u8>) -> Result<InfoModel, TorrentError> {
    match whole_value(s) {
        Err(e) => Err(e),
        Ok(v) => info_of(v),
    }
}

/// What `Torrent::from_bytes` answers.
pub open spec fn torrent_from_bytes(s: Seq<u8>) -> Result<TorrentModel, TorrentError> {
    match whole_value(s) {
        Err(e) => Err(e),
        Ok(v) => torrent_of(v),
    }
}

fn bytes_eq(a: &[u8], b: &[u8]) -> (r: bool)
    ensures
        r == (a@ == b@),
{
    if a.len() != b.len() {
        return false;
    }
    let mut i: usize = 0;
    while i < a.len()
        invariant
            a@.len() == b@.len(),
            i <= a@.len(),
            forall|k: int| 0 <= k < i ==> a@[k] == b@[k],
        decreases a.len() - i,
    {
        if a[i] != b[i] {
            return false;
        }
        i = i + 1;
    }
    assert(a@ =~= b@);
    true
}

/// The value under the first entry with key `k`.
pub fn lookup<'a>(es: &'a Vec<(Vec<u8>, Value)>, k: &[u8]) -> (r: Option<&'a Value>)
    ensures
        match r {
            Some(x) => dict_get(entry_models(es@), k@) == Some(x@),
            None => dict_get(entry_models(es@), k@) is None,
        },
{
    let ghost m = entry_models(es@);
    proof {
        lemma_entry_models(es@);
        assert(m.subrange(0, m.len() as int) =~= m);
    }
    let mut i: usize = 0;
    while i < es.len()
        invariant
            i <= es@.len(),
            m == entry_models(es@),
            m.len() == es@.len(),
            forall|j: int| 0 <= j < es@.len() ==> #[trigger] m[j] == (es@[j].0@, value_model(es@[j].1)),
            dict_get(m, k@) == dict_get(m.subrange(i as int, m.len() as int), k@),
        decreases es.len() - i,
    {
        let ghost rest = m.subrange(i as int, m.len() as int);
        assert(rest.drop_first() =~= m.subrange(i + 1, m.len() as int));
        assert(rest[0] == m[i as int]);
        if bytes_eq(es[i].0.as_slice(), k) {
            return Some(&es[i].1);
        }
        i = i + 1;
    }
    None
}

fn u64_field_of(es: &Vec<(Vec<u8>, Value)>, k: &[u8], f: Field) -> (r: Result<u64, TorrentError>)
    ensures
        match r {
            Ok(n) => u64_field(entry_models(es@), k@, f) == Ok::<int, TorrentError>(n as int),
            Err(e) => u64_field(entry_models(es@), k@, f) == Err::<int, TorrentError>(e),
        },
{
    match lookup(es, k) {
        None => Err(TorrentError::Missing(f)),
        Some(Value::Integer(i)) => {
            if *i >= 0 {
                Ok(*i as u64)
            } else {
                Err(TorrentError::WrongType(f))
            }
        },
        Some(_) => Err(TorrentError::WrongType(f)),
    }
}

fn text_field_of(es: &Vec<(Vec<u8>, Value)>, k: &[u8], f: Field) -> (r: Result<String, TorrentError>)
    ensures
        match r {
            Ok(t) => text_field(entry_models(es@), k@, f) == Ok::<Seq<char>, TorrentError>(t@),
            Err(e) => text_field(entry_models(es@), k@, f) == Err::<Seq<char>, TorrentError>(e),
        },
{
    match lookup(es, k) {
        None => Err(TorrentError::Missing(f)),
        Some(Value::Bytes(b)) => match utf8_text(copy_bytes(b.as_slice())) {
            Some(t) => Ok(t),
            None => Err(TorrentError::InvalidText(f)),
        },
        Some(_) => Err(TorrentError::WrongType(f)),
    }
}

impl Info {
    /// Reads the `info` dictionary out of a generic value.
    pub fn from_value(v: &Value) -> (r: Result<Info, TorrentError>)
        ensures
            match r {
                Ok(info) => info_of(v@) == Ok::<InfoModel, TorrentError>(info@),
                Err(e) => info_of(v@) == Err::<InfoModel, TorrentError>(e),
            },
    {
        let es = match v {
            Value::Dict(es) => es,
            _ => return Err(TorrentError::NotADictionary(Field::Info)),
        };
        let length = match u64_field_of(es, &[108u8, 101, 110, 103, 116, 104], Field::Length) {
            Ok(n) => n,
            Err(e) => return Err(e),
        };
        let name = match text_field_of(es, &[110u8, 97, 109, 101], Field::Name) {
            Ok(t) => t,
            Err(e) => return Err(e),
        };
        let piece_length = match u64_field_of(
            es,
            &[112u8, 105, 101, 99, 101, 32, 108, 101, 110, 103, 116, 104],
            Field::PieceLength,
        ) {
            Ok(n) => n,
            Err(e) => return Err(e),
        };
        if piece_length == 0 {
            return Err(TorrentError::WrongType(Field::PieceLength));
        }
        let pieces = match lookup(es, &[112u8, 105, 101, 99, 101, 115]) {
            None => return Err(TorrentError::Missing(Field::Pieces)),
            Some(Value::Bytes(b)) => match Hashes::from_bytes(b.as_slice()) {
                Ok(h) => h,
                Err(_) => return Err(TorrentError::InvalidLength(Field::Pieces, b.len() as usize)),
            },
            Some(_) => return Err(TorrentError::WrongType(Field::Pieces)),
        };
        let info = Info { length, name, piece_length, pieces };
        assert(info@.pieces =~= chunks_of(dict_get(entry_models(es@), key_pieces())->0->Bytes_0, 20));
        Ok(info)
    }

    /// Decodes an `info` dictionary that makes up the whole of `b`.
    pub fn from_bytes(b: &[u8]) -> (r: Result<Info, TorrentError>)
        ensures
            match r {
                Ok(info) => info_from_bytes(b@) == Ok::<InfoModel, TorrentError>(info@),
                Err(e) => info_from_bytes(b@) == Err::<InfoModel, TorrentError>(e),
            },
    {
        match decode(b) {
            Err(e) => Err(TorrentError::Decode(e)),
            Ok((v, n)) => {
                if n != b.len() {
                    Err(TorrentError::TrailingBytes)
                } else {
                    Info::from_value(&v)
                }
            },
        }
    }

    /// The canonical bencode encoding of this `Info`.
    pub fn encode(&self) -> (r: Vec<u8>)
        ensures
            r@ == enc(info_value(self@)),
    {
        let mut out: Vec<u8> = Vec::new();
        out.push(100u8);
        let ghost o0 = out@;
        push_bytes(&[108u8, 101, 110, 103, 116, 104], &mut out);
        out.push(105u8);
        push_decimal(&mut out, self.length);
        out.push(101u8);
        let ghost o1 = out@;
        push_bytes(&[110u8, 97, 109, 101], &mut out);
        push_bytes(self.name.as_str().as_bytes(), &mut out);
        let ghost o2 = out@;
        push_bytes(&[112u8, 105, 101, 99, 101, 32, 108, 101, 110, 103, 116, 104], &mut out);
        out.push(105u8);
        push_decimal(&mut out, self.piece_length);
        out.push(101u8);
        let ghost o3 = out@;
        push_bytes(&[112u8, 105, 101, 99, 101, 115], &mut out);
        let pieces = self.pieces.to_bytes();
        push_bytes(pieces.as_slice(), &mut out);
        let ghost o4 = out@;
        out.push(101u8);
        proof {
            let m = self@;
            lemma_concat_hashes(self.pieces.0@);
            let e0 = (key_length(), SValue::Int(m.length));
            let e1 = (key_name(), SValue::Bytes(encode_utf8(m.name)));
            let e2 = (key_piece_length(), SValue::Int(m.piece_length));
            let e3 = (key_pieces(), SValue::Bytes(concat_pieces(m.pieces)));
            let s0 = Seq::<(Seq<u8>, SValue)>::empty();
            lemma_enc_dict_push(s0, e0.0, e0.1);
            lemma_enc_dict_push(s0.push(e0), e1.0, e1.1);
            lemma_enc_dict_push(s0.push(e0).push(e1), e2.0, e2.1);
            lemma_enc_dict_push(s0.push(e0).push(e1).push(e2), e3.0, e3.1);
            assert(s0.push(e0).push(e1).push(e2).push(e3) =~= info_value(m)->Dict_0);
            assert(dec_int(m.length) == dec(self.length as nat));
            assert(dec_int(m.piece_length) == dec(self.piece_length as nat));
            assert(o1 =~= o0 + enc_bytes(e0.0) + enc(e0.1));
            assert(o2 =~= o1 + enc_bytes(e1.0) + enc(e1.1));
            assert(o3 =~= o2 + enc_bytes(e2.0) + enc(e2.1));
            assert(o4 =~= o3 + enc_bytes(e3.0) + enc(e3.1));
            assert(enc_dict(s0) =~= Seq::<u8>::empty());
            assert(out@ =~= enc(info_value(m)));
        }
        out
    }
}

/// The SHA-1 digest of a byte string.
pub uninterp spec fn sha1_of(data: Seq<u8>) -> Seq<u8>;

/// Relies on `sha1::Sha1` through `Digest::digest`: the 20-byte SHA-1 digest
/// of the bytes, which depends on the bytes alone.
#[verifier::external_body]
fn sha1_digest(data: &[u8]) -> (r: [u8; 20])
    ensures
        r@ == sha1_of(data@),
{
    <sha1::Sha1 as sha1::Digest>::digest(data).into()
}

/// The info hash of an `Info` model: SHA-1 over its canonical encoding.
pub open spec fn info_hash_of(m: InfoModel) -> Seq<u8> {
    sha1_of(enc(info_value(m)))
}

impl Torrent {
    /// Reads a torrent out of a generic value.
    pub fn from_value(v: &Value) -> (r: Result<Torrent, TorrentError>)
        ensures
            match r {
                Ok(t) => torrent_of(v@) == Ok::<TorrentModel, TorrentError>(t@),
                Err(e) => torrent_of(v@) == Err::<TorrentModel, TorrentError>(e),
            },
    {
        let es = match v {
            Value::Dict(es) => es,
            _ => return Err(TorrentError::NotADictionary(Field::Torrent)),
        };
        let announce = match text_field_of(es, &[97u8, 110, 110, 111, 117, 110, 99, 101], Field::Announce) {
            Ok(t) => t,
            Err(e) => return Err(e),
        };
        if !is_url(announce.as_str()) {
            return Err(TorrentError::InvalidUrl);
        }
        let info = match lookup(es, &[105u8, 110, 102, 111]) {
            None => return Err(TorrentError::Missing(Field::Info)),
            Some(iv) => match Info::from_value(iv) {
                Ok(info) => info,
                Err(e) => return Err(e),
            },
        };
        Ok(Torrent { announce, info })
    }

    /// Decodes a `.torrent` file's bytes: one dictionary and nothing after it.
    pub fn from_bytes(b: &[u8]) -> (r: Result<Torrent, TorrentError>)
        ensures
            match r {
                Ok(t) => torrent_from_bytes(b@) == Ok::<TorrentModel, TorrentError>(t@),
                Err(e) => torrent_from_bytes(b@) == Err::<TorrentModel, TorrentError>(e),
            },
    {
        match decode(b) {
            Err(e) => Err(TorrentError::Decode(e)),
            Ok((v, n)) => {
                if n != b.len() {
                    Err(TorrentError::TrailingBytes)
                } else {
                    Torrent::from_value(&v)
                }
            },
        }
    }

    /// The torrent's identity: SHA-1 over the canonical encoding of `info`.
    pub fn info_hash(&self) -> (r: [u8; 20])
        ensures
            r@ == info_hash_of(self.info@),
    {
        let encoded = self.info.encode();
        sha1_digest(encoded.as_slice())
    }
}

proof fn lemma_chunks_of_concat(ps: Seq<Seq<u8>>)
    requires
        forall|i: int| 0 <= i < ps.len() ==> (#[trigger] ps[i]).len() == 20,
    ensures
        concat_pieces(ps).len() == 20 * ps.len(),
        chunks_of(concat_pieces(ps), 20) == ps,
    decreases ps.len(),
{
    let c = concat_pieces(ps);
    if ps.len() == 0 {
        assert(chunks_of(c, 20) =~= ps);
    } else {
        let ps0 = ps.drop_last();
        lemma_chunks_of_concat(ps0);
        let c0 = concat_pieces(ps0);
        let n = ps.len() as int;
        assert(c.len() == 20 * n);
        assert(c.len() / 20 == n);
        assert forall|i: int| 0 <= i < n implies #[trigger] chunks_of(c, 20)[i] == ps[i] by {
            if i < n - 1 {
                assert(chunks_of(c0, 20)[i] == ps0[i]);
                assert(c.subrange(i * 20, (i + 1) * 20) =~= c0.subrange(i * 20, (i + 1) * 20));
            } else {
                assert(c.subrange(i * 20, (i + 1) * 20) =~= ps.last());
            }
        }
        assert(chunks_of(c, 20) =~= ps);
    }
}

/// Joining piece hashes into a `pieces` run and splitting the run again
/// gives the hashes back, in order.
pub proof fn lemma_pieces_round_trip(hs: Seq<[u8; 20]>)
    ensures
        concat_hashes(hs).len() == 20 * hs.len(),
        (concat_hashes(hs).len() as int) % 20 == 0,
        chunks_of(concat_hashes(hs), 20) == Seq::new(hs.len(), |i: int| hs[i]@),
{
    let ps = Seq::new(hs.len(), |i: int| hs[i]@);
    lemma_concat_hashes(hs);
    lemma_chunks_of_concat(ps);
}

/// Encoding an `Info` and decoding the bytes gives the same `Info` back, and
/// encoding that again reproduces the bytes. Integers are `i64` in bencode,
/// so the two sizes must fit it.
pub proof fn lemma_info_round_trip(m: InfoModel)
    requires
        info_wf(m),
        m.length <= i64::MAX,
        m.piece_length <= i64::MAX,
    ensures
        info_from_bytes(enc(info_value(m))) == Ok::<InfoModel, TorrentError>(m),
        enc(info_value(info_from_bytes(enc(info_value(m)))->Ok_0)) == enc(info_value(m)),
{
    let v = info_value(m);
    let s = enc(v);
    let es = v->Dict_0;
    let d = MAX_DEPTH as nat;
    let es1 = es.subrange(1, 4);
    let es2 = es1.subrange(1, 3);
    let es3 = es2.subrange(1, 2);
    let es4 = es3.subrange(1, 1);
    assert(es3.len() == 1 && es3[0] == es[3] && es3.subrange(1, es3.len() as int) == es4);
    assert(es2.len() == 2 && es2[0] == es[2] && es2.subrange(1, es2.len() as int) == es3);
    assert(es1.len() == 3 && es1[0] == es[1] && es1.subrange(1, es1.len() as int) == es2);
    assert(es[3] == (key_pieces(), SValue::Bytes(concat_pieces(m.pieces))));
    assert(es[2] == (key_piece_length(), SValue::Int(m.piece_length)));
    assert(wf_value(es[3].1, (d - 1) as nat));
    assert(wf_value(es[2].1, (d - 1) as nat));
    assert(es[1] == (key_name(), SValue::Bytes(encode_utf8(m.name))));
    assert(es[0] == (key_length(), SValue::Int(m.length)));
    assert(wf_value(es[1].1, (d - 1) as nat));
    assert(wf_value(es[0].1, (d - 1) as nat));
    assert(es.len() == 4 && es.subrange(1, es.len() as int) == es1);
    assert(wf_dict(es4, (d - 1) as nat));
    assert(wf_dict(es3, (d - 1) as nat));
    assert(wf_dict(es2, (d - 1) as nat));
    assert(wf_dict(es1, (d - 1) as nat));
    assert(wf_dict(es, (d - 1) as nat));
    assert(wf_value(v, d));
    assert(s.subrange(0, s.len() as int) =~= s);
    lemma_parse_complete(s, 0, v, d);
    assert(decode_spec(s) == parse_value(s, 0, d));
    assert(es.drop_first() =~= es1);
    assert(es1.drop_first() =~= es2);
    assert(es2.drop_first() =~= es3);
    assert(key_length() != key_name());
    assert(key_length() != key_piece_length());
    assert(key_name() != key_piece_length());
    assert(key_length()[0] != key_pieces()[0]);
    assert(key_length() != key_pieces());
    assert(key_name() != key_pieces());
    assert(key_piece_length() != key_pieces());
    assert(dict_get(es, key_length()) == Some(SValue::Int(m.length)));
    assert(dict_get(es1, key_name()) == Some(SValue::Bytes(encode_utf8(m.name))));
    assert(dict_get(es, key_name()) == Some(SValue::Bytes(encode_utf8(m.name))));
    assert(dict_get(es2, key_piece_length()) == Some(SValue::Int(m.piece_length)));
    assert(dict_get(es1, key_piece_length()) == Some(SValue::Int(m.piece_length)));
    assert(dict_get(es, key_piece_length()) == Some(SValue::Int(m.piece_length)));
    assert(dict_get(es3, key_pieces()) == Some(SValue::Bytes(concat_pieces(m.pieces))));
    assert(dict_get(es2, key_pieces()) == Some(SValue::Bytes(concat_pieces(m.pieces))));
    assert(dict_get(es1, key_pieces()) == Some(SValue::Bytes(concat_pieces(m.pieces))));
    assert(dict_get(es, key_pieces()) == Some(SValue::Bytes(concat_pieces(m.pieces))));
    encode_utf8_valid_utf8(m.name);
    encode_utf8_decode_utf8(m.name);
    lemma_chunks_of_concat(m.pieces);
    assert(info_of(v) == Ok::<InfoModel, TorrentError>(m));
}

/// No key appears twice.
pub open spec fn keys_unique(es: Seq<(Seq<u8>, SValue)>) -> bool {
    forall|i: int, j: int| 0 <= i < j < es.len() ==> #[trigger] es[i].0 != #[trigger] es[j].0
}

/// `b` holds the entries of `a`, in some order.
pub open spec fn same_entries(a: Seq<(Seq<u8>, SValue)>, b: Seq<(Seq<u8>, SValue)>) -> bool {
    &&& a.len() == b.len()
    &&& forall|i: int|
        #![trigger a[i]]
        0 <= i < a.len() ==> exists|j: int| #![trigger b[j]] 0 <= j < b.len() && b[j] == a[i]
    &&& forall|j: int|
        #![trigger b[j]]
        0 <= j < b.len() ==> exists|i: int| #![trigger a[i]] 0 <= i < a.len() && a[i] == b[j]
}

proof fn lemma_dict_get_found(es: Seq<(Seq<u8>, SValue)>, k: Seq<u8>) -> (i: int)
    requires
        dict_get(es, k) is Some,
    ensures
        0 <= i < es.len(),
        es[i] == (k, dict_get(es, k)->0),
    decreases es.len(),
{
    if es[0].0 == k {
        0
    } else {
        let j = lemma_dict_get_found(es.drop_first(), k);
        j + 1
    }
}

proof fn lemma_dict_get_at(es: Seq<(Seq<u8>, SValue)>, i: int)
    requires
        keys_unique(es),
        0 <= i < es.len(),
    ensures
        dict_get(es, es[i].0) == Some(es[i].1),
    decreases es.len(),
{
    if i > 0 {
        let rest = es.drop_first();
        assert(es[0].0 != es[i].0);
        assert(keys_unique(rest)) by {
            assert forall|x: int, y: int| 0 <= x < y < rest.len() implies #[trigger] rest[x].0
                != #[trigger] rest[y].0 by {
                assert(rest[x] == es[x + 1] && rest[y] == es[y + 1]);
            }
        }
        assert(rest[i - 1] == es[i]);
        lemma_dict_get_at(rest, i - 1);
    }
}

proof fn lemma_dict_get_same_entries(a: Seq<(Seq<u8>, SValue)>, b: Seq<(Seq<u8>, SValue)>, k: Seq<u8>)
    requires
        keys_unique(a),
        keys_unique(b),
        same_entries(a, b),
    ensures
        dict_get(a, k) == dict_get(b, k),
{
    if dict_get(a, k) is Some {
        let i = lemma_dict_get_found(a, k);
        let x = a[i];
        let j = choose|j: int| #![trigger b[j]] 0 <= j < b.len() && b[j] == x;
        lemma_dict_get_at(b, j);
    } else if dict_get(b, k) is Some {
        let j = lemma_dict_get_found(b, k);
        let y = b[j];
        let i = choose|i: int| #![trigger a[i]] 0 <= i < a.len() && a[i] == y;
        lemma_dict_get_at(a, i);
    }
}

/// Two dictionaries with the same entries, listed in different orders,
/// describe the same `Info`, and so have the same info hash.
pub proof fn lemma_info_hash_ignores_key_order(a: Seq<(Seq<u8>, SValue)>, b: Seq<(Seq<u8>, SValue)>)
    requires
        keys_unique(a),
        keys_unique(b),
        same_entries(a, b),
    ensures
        info_of(SValue::Dict(a)) == info_of(SValue::Dict(b)),
        info_of(SValue::Dict(a)) is Ok ==> info_hash_of(info_of(SValue::Dict(a))->Ok_0) == info_hash_of(
            info_of(SValue::Dict(b))->Ok_0,
        ),
{
    lemma_dict_get_same_entries(a, b, key_length());
    lemma_dict_get_same_entries(a, b, key_name());
    lemma_dict_get_same_entries(a, b, key_piece_length());
    lemma_dict_get_same_entries(a, b, key_pieces());
}

proof fn lemma_enc_dict_push(es: Seq<(Seq<u8>, SValue)>, k: Seq<u8>, v: SValue)
    ensures
        enc_dict(es.push((k, v))) == enc_dict(es) + enc_bytes(k) + enc(v),
{
    assert(es.push((k, v)).subrange(0, es.len() as int) =~= es);
}

proof fn lemma_concat_hashes(hs: Seq<[u8; 20]>)
    ensures
        concat_hashes(hs) == concat_pieces(Seq::new(hs.len(), |i: int| hs[i]@)),
    decreases hs.len(),
{
    if hs.len() > 0 {
        lemma_concat_hashes(hs.drop_last());
        assert(Seq::new(hs.len(), |i: int| hs[i]@).drop_last() =~= Seq::new(
            hs.drop_last().len(),
            |i: int| hs.drop_last()[i]@,
        ));
    }
}

} // verus!
