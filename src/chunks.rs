//! Fixed-width binary fields: runs of 20-byte piece hashes and of 6-byte
//! compact peer records.
use vstd::prelude::*;
use vstd::string::StringExecFns;
use crate::decimal::{dec, is_digit, lemma_dec, push_decimal};
use crate::text::{ascii_string, ascii_text, is_ascii_bytes};

verus! {

broadcast use {vstd::std_specs::vec::group_vec_axioms, vstd::seq::group_seq_axioms};

/// A byte run whose length (held here) is not a multiple of the record width.
#[derive(Debug, Clone, Copy, PartialEq, Eq, Structural)]
pub enum ChunkError {
    InvalidLength(usize),
}

/// The `i`-th record of width `w` in `b`.
pub open spec fn chunk(b: Seq<u8>, w: int, i: int) -> Seq<u8> {
    b.subrange(i * w, (i + 1) * w)
}

proof fn lemma_next_chunk_fits(k: int, n: int, w: int)
    requires
        0 <= k,
        0 < w,
        k * w < n * w,
    ensures
        (k + 1) * w <= n * w,
        k < n,
{
    assert(k < n) by (nonlinear_arith)
        requires k * w < n * w, 0 < w;
    assert((k + 1) * w <= n * w) by (nonlinear_arith)
        requires k < n, 0 < w;
}

/// Splits `b` into records of `width` bytes, in input order. A length that
/// is not a multiple of `width` is refused as a whole.
pub fn decode_chunks(b: &[u8], width: usize) -> (r: Result<Vec<Vec<u8>>, ChunkError>)
    requires
        width > 0,
    ensures
        r is Err <==> (b@.len() as int) % (width as int) != 0,
        r is Err ==> r == Err::<Vec<Vec<u8>>, ChunkError>(ChunkError::InvalidLength(b.len())),
        r matches Ok(cs) ==> {
            &&& cs@.len() == (b@.len() as int) / (width as int)
            &&& forall|i: int| 0 <= i < cs@.len() ==> #[trigger] cs@[i]@ == chunk(b@, width as int, i)
        },
{
    if b.len() % width != 0 {
        return Err(ChunkError::InvalidLength(b.len()));
    }
    let ghost w = width as int;
    let ghost n = (b@.len() as int) / w;
    assert(b@.len() as int == n * w) by (nonlinear_arith)
        requires (b@.len() as int) % w == 0, w > 0, n == (b@.len() as int) / w;
    let mut cs: Vec<Vec<u8>> = Vec::new();
    let mut pos: usize = 0;
    assert(0 * w == 0);
    while pos < b.len()
        invariant
            w == width as int,
            w > 0,
            b@.len() == n * w,
            pos as int == cs@.len() * w,
            pos <= b.len(),
            forall|i: int| 0 <= i < cs@.len() ==> #[trigger] cs@[i]@ == chunk(b@, w, i),
        decreases b.len() - pos,
    {
        proof {
            lemma_next_chunk_fits(cs@.len() as int, n, w);
            assert((cs@.len() + 1) * w == cs@.len() * w + w) by (nonlinear_arith);
        }
        let end = pos + width;
        let mut c: Vec<u8> = Vec::new();
        let mut k = pos;
        while k < end
            invariant
                pos <= k <= end <= b.len(),
                c@ == b@.subrange(pos as int, k as int),
            decreases end - k,
        {
            c.push(b[k]);
            k = k + 1;
            assert(c@ =~= b@.subrange(pos as int, k as int));
        }
        let ghost i = cs@.len() as int;
        assert(c@ == chunk(b@, w, i)) by {
            assert((i + 1) * w == i * w + w) by (nonlinear_arith);
        }
        cs.push(c);
        pos = end;
        assert(pos as int == cs@.len() * w) by (nonlinear_arith)
            requires pos as int == i * w + w, cs@.len() == i + 1;
    }
    proof {
        assert(cs@.len() == n) by (nonlinear_arith)
            requires cs@.len() * w == n * w, w > 0;
    }
    Ok(cs)
}

/// The SHA-1 hashes of a torrent's pieces, in piece order.
#[derive(Debug, Clone, PartialEq, Eq)]
pub struct Hashes(pub Vec<[u8; 20]>);

/// The hashes one after another.
pub open spec fn concat_hashes(hs: Seq<[u8; 20]>) -> Seq<u8>
    decreases hs.len(),
{
    if hs.len() == 0 {
        Seq::empty()
    } else {
        concat_hashes(hs.drop_last()) + hs.last()@
    }
}

/// The records of width `w` that make up `b`.
pub open spec fn chunks_of(b: Seq<u8>, w: int) -> Seq<Seq<u8>> {
    Seq::new(((b.len() as int) / w) as nat, |i: int| chunk(b, w, i))
}

fn to_hash(c: &Vec<u8>) -> (h: [u8; 20])
    requires
        c@.len() == 20,
    ensures
        h@ == c@,
{
    let mut h = [0u8; 20];
    let mut j: usize = 0;
    while j < 20
        invariant
            j <= 20,
            c@.len() == 20,
            forall|k: int| 0 <= k < j ==> h@[k] == c@[k],
        decreases 20 - j,
    {
        h[j] = c[j];
        j = j + 1;
    }
    assert(h@ =~= c@);
    h
}

impl Hashes {
    /// Splits a `pieces` byte run into 20-byte hashes.
    pub fn from_bytes(b: &[u8]) -> (r: Result<Hashes, ChunkError>)
        ensures
            r is Err <==> (b@.len() as int) % 20 != 0,
            r is Err ==> r == Err::<Hashes, ChunkError>(ChunkError::InvalidLength(b.len())),
            r matches Ok(h) ==> {
                &&& h.0@.len() == (b@.len() as int) / 20
                &&& forall|i: int| 0 <= i < h.0@.len() ==> #[trigger] h.0@[i]@ == chunk(b@, 20, i)
            },
            b@.len() == 0 ==> (r matches Ok(h) && h.0@.len() == 0),
    {
        let cs = match decode_chunks(b, 20) {
            Ok(cs) => cs,
            Err(e) => return Err(e),
        };
        let mut hs: Vec<[u8; 20]> = Vec::new();
        let mut i: usize = 0;
        while i < cs.len()
            invariant
                i <= cs@.len(),
                cs@.len() == (b@.len() as int) / 20,
                forall|k: int| 0 <= k < cs@.len() ==> #[trigger] cs@[k]@ == chunk(b@, 20, k),
                hs@.len() == i,
                forall|k: int| 0 <= k < i ==> #[trigger] hs@[k]@ == chunk(b@, 20, k),
            decreases cs.len() - i,
        {
            proof {
                lemma_chunk_len(b@, 20, i as int);
            }
            let h = to_hash(&cs[i]);
            hs.push(h);
            i = i + 1;
        }
        Ok(Hashes(hs))
    }

    /// The hashes one after another: the `pieces` byte run.
    pub fn to_bytes(&self) -> (r: Vec<u8>)
        ensures
            r@ == concat_hashes(self.0@),
    {
        let mut out: Vec<u8> = Vec::new();
        let mut i: usize = 0;
        assert(self.0@.subrange(0, 0).len() == 0);
        while i < self.0.len()
            invariant
                i <= self.0@.len(),
                out@ == concat_hashes(self.0@.subrange(0, i as int)),
            decreases self.0.len() - i,
        {
            let h = &self.0[i];
            let mut j: usize = 0;
            let ghost before = out@;
            while j < 20
                invariant
                    j <= 20,
                    out@ == before + h@.subrange(0, j as int),
                decreases 20 - j,
            {
                out.push(h[j]);
                j = j + 1;
                assert(out@ =~= before + h@.subrange(0, j as int));
            }
            assert(h@.subrange(0, 20) =~= h@);
            assert(self.0@.subrange(0, i + 1).drop_last() =~= self.0@.subrange(0, i as int));
            i = i + 1;
        }
        assert(self.0@.subrange(0, i as int) =~= self.0@);
        out
    }
}

proof fn lemma_chunk_len(b: Seq<u8>, w: int, i: int)
    requires
        w > 0,
        0 <= i < (b.len() as int) / w,
    ensures
        chunk(b, w, i).len() == w,
{
    assert((i + 1) * w <= ((b.len() as int) / w) * w && ((b.len() as int) / w) * w <= b.len() && i * w >= 0
        && (i + 1) * w == i * w + w) by (nonlinear_arith)
        requires w > 0, 0 <= i < (b.len() as int) / w;
}

/// A peer's dotted-quad address, as ASCII bytes.
pub open spec fn dotted(c: Seq<u8>) -> Seq<u8> {
    dec(c[0] as nat) + seq![46u8] + dec(c[1] as nat) + seq![46u8] + dec(c[2] as nat) + seq![46u8]
        + dec(c[3] as nat)
}

/// A big-endian port from the last two bytes of a compact record.
pub open spec fn port_of(c: Seq<u8>) -> int {
    c[4] * 256 + c[5]
}

pub proof fn lemma_dec_ascii(n: nat)
    ensures
        is_ascii_bytes(dec(n)),
{
    lemma_dec(n);
    assert forall|k: int| 0 <= k < dec(n).len() implies #[trigger] dec(n)[k] < 128 by {
        assert(is_digit(dec(n)[k]));
    }
}

proof fn lemma_concat_ascii(a: Seq<u8>, b: Seq<u8>)
    requires
        is_ascii_bytes(a),
        is_ascii_bytes(b),
    ensures
        is_ascii_bytes(a + b),
{
    assert forall|k: int| 0 <= k < (a + b).len() implies #[trigger] (a + b)[k] < 128 by {
        if k < a.len() {
            assert((a + b)[k] == a[k]);
        } else {
            assert((a + b)[k] == b[k - a.len()]);
        }
    }
}

/// A peer as a compact tracker response announces it.
#[derive(Debug, Clone)]
pub struct Peer {
    pub ip: String,
    pub port: u16,
}

impl Peer {
    /// Reads a 6-byte compact record: four address bytes, then a big-endian port.
    pub fn from_record(c: &[u8]) -> (r: Peer)
        requires
            c@.len() == 6,
        ensures
            r.ip@ == ascii_text(dotted(c@)),
            r.port as int == port_of(c@),
    {
        let mut b: Vec<u8> = Vec::new();
        push_decimal(&mut b, c[0] as u64);
        b.push(46u8);
        push_decimal(&mut b, c[1] as u64);
        b.push(46u8);
        push_decimal(&mut b, c[2] as u64);
        b.push(46u8);
        push_decimal(&mut b, c[3] as u64);
        let ghost c0 = c@;
        proof {
            assert(b@ =~= dotted(c0));
            let dot = seq![46u8];
            assert(is_ascii_bytes(dot));
            lemma_dec_ascii(c0[0] as nat);
            lemma_dec_ascii(c0[1] as nat);
            lemma_dec_ascii(c0[2] as nat);
            lemma_dec_ascii(c0[3] as nat);
            lemma_concat_ascii(dec(c0[0] as nat), dot);
            lemma_concat_ascii(dec(c0[0] as nat) + dot, dec(c0[1] as nat));
            lemma_concat_ascii(dec(c0[0] as nat) + dot + dec(c0[1] as nat), dot);
            lemma_concat_ascii(dec(c0[0] as nat) + dot + dec(c0[1] as nat) + dot, dec(c0[2] as nat));
            lemma_concat_ascii(dec(c0[0] as nat) + dot + dec(c0[1] as nat) + dot + dec(c0[2] as nat), dot);
            lemma_concat_ascii(
                dec(c0[0] as nat) + dot + dec(c0[1] as nat) + dot + dec(c0[2] as nat) + dot,
                dec(c0[3] as nat),
            );
        }
        let ip = ascii_string(b);
        let port = (c[4] as u16) * 256 + (c[5] as u16);
        Peer { ip, port }
    }

    /// `ip:port`.
    pub fn to_string(&self) -> (r: String)
        ensures
            r@ == self.ip@ + seq![':'] + ascii_text(dec(self.port as nat)),
    {
        let mut digits: Vec<u8> = Vec::new();
        push_decimal(&mut digits, self.port as u64);
        assert(digits@ =~= dec(self.port as nat));
        proof {
            lemma_dec_ascii(self.port as nat);
        }
        let port = ascii_string(digits);
        let mut s = self.ip.clone();
        proof {
            reveal_strlit(":");
        }
        s.append(":");
        s.append(port.as_str());
        assert(s@ =~= self.ip@ + seq![':'] + ascii_text(dec(self.port as nat)));
        s
    }
}

/// `ps` are the peers that the compact run `b` announces, in record order.
pub open spec fn peers_of(ps: Seq<Peer>, b: Seq<u8>) -> bool {
    &&& ps.len() == (b.len() as int) / 6
    &&& forall|i: int|
        0 <= i < ps.len() ==> (#[trigger] ps[i]).ip@ == ascii_text(dotted(chunk(b, 6, i)))
            && ps[i].port as int == port_of(chunk(b, 6, i))
}

/// The peers of a compact tracker response, in record order.
#[derive(Debug, Clone)]
pub struct Peers(pub Vec<Peer>);

impl Peers {
    /// Splits a compact `peers` byte run into 6-byte records and reads each.
    pub fn from_bytes(b: &[u8]) -> (r: Result<Peers, ChunkError>)
        ensures
            r is Err <==> (b@.len() as int) % 6 != 0,
            r is Err ==> r == Err::<Peers, ChunkError>(ChunkError::InvalidLength(b.len())),
            r matches Ok(ps) ==> peers_of(ps.0@, b@),
            b@.len() == 0 ==> (r matches Ok(ps) && ps.0@.len() == 0),
    {
        let cs = match decode_chunks(b, 6) {
            Ok(cs) => cs,
            Err(e) => return Err(e),
        };
        let mut ps: Vec<Peer> = Vec::new();
        let mut i: usize = 0;
        while i < cs.len()
            invariant
                i <= cs@.len(),
                cs@.len() == (b@.len() as int) / 6,
                forall|k: int| 0 <= k < cs@.len() ==> #[trigger] cs@[k]@ == chunk(b@, 6, k),
                ps@.len() == i,
                forall|k: int|
                    0 <= k < i ==> (#[trigger] ps@[k]).ip@ == ascii_text(dotted(chunk(b@, 6, k)))
                        && ps@[k].port as int == port_of(chunk(b@, 6, k)),
            decreases cs.len() - i,
        {
            proof {
                lemma_chunk_len(b@, 6, i as int);
            }
            let p = Peer::from_record(cs[i].as_slice());
            ps.push(p);
            i = i + 1;
        }
        Ok(Peers(ps))
    }
}
} // verus!
