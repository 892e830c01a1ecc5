//! The bencode grammar: a generic value, its encoding and a decoder.
//!
//! The decoder is lenient about dictionary key order (it keeps the entries
//! in input order) and strict about numbers: no leading zeros, no `-0`.
//! Nesting of lists and dictionaries is bounded by `MAX_DEPTH`.
use vstd::prelude::*;
use crate::decimal::{
    dec, dec_int, digits_value, is_digit, lemma_canonical_digits, lemma_dec, push_decimal,
    push_signed_decimal,
};

verus! {

broadcast use {vstd::std_specs::vec::group_vec_axioms, vstd::seq::group_seq_axioms};

/// Deepest nesting of lists and dictionaries that `decode` accepts.
pub const MAX_DEPTH: usize = 64;

/// Mathematical form of a bencode value.
pub enum SValue {
    Int(int),
    Bytes(Seq<u8>),
    List(Seq<SValue>),
    Dict(Seq<(Seq<u8>, SValue)>),
}

/// A decoded bencode value. Dictionary entries keep their input order.
#[derive(Debug, PartialEq, Eq)]
pub enum Value {
    Integer(i64),
    Bytes(Vec<u8>),
    List(Vec<Value>),
    Dict(Vec<(Vec<u8>, Value)>),
}

/// Why a byte string is not bencode.
#[derive(Debug, Clone, Copy, PartialEq, Eq, Structural)]
pub enum DecodeError {
    /// The input does not match a production at some position.
    Malformed,
    /// The input ends before a declared length or a terminator.
    Truncated,
    /// Lists and dictionaries are nested deeper than `MAX_DEPTH`.
    TooDeep,
}

pub open spec fn value_model(v: Value) -> SValue
    decreases v,
{
    match v {
        Value::Integer(i) => SValue::Int(i as int),
        Value::Bytes(b) => SValue::Bytes(b@),
        Value::List(xs) => SValue::List(models(xs@)),
        Value::Dict(es) => SValue::Dict(entry_models(es@)),
    }
}

pub open spec fn models(vs: Seq<Value>) -> Seq<SValue>
    decreases vs,
{
    if vs.len() == 0 {
        Seq::empty()
    } else {
        models(vs.subrange(0, vs.len() - 1)).push(value_model(vs[vs.len() - 1]))
    }
}

pub open spec fn entry_models(es: Seq<(Vec<u8>, Value)>) -> Seq<(Seq<u8>, SValue)>
    decreases es,
{
    if es.len() == 0 {
        Seq::empty()
    } else {
        entry_models(es.subrange(0, es.len() - 1)).push(
            (es[es.len() - 1].0@, value_model(es[es.len() - 1].1)),
        )
    }
}

impl View for Value {
    type V = SValue;

    open spec fn view(&self) -> SValue {
        value_model(*self)
    }
}

pub proof fn lemma_models(vs: Seq<Value>)
    ensures
        models(vs).len() == vs.len(),
        forall|i: int| 0 <= i < vs.len() ==> #[trigger] models(vs)[i] == value_model(vs[i]),
    decreases vs.len(),
{
    if vs.len() > 0 {
        lemma_models(vs.subrange(0, vs.len() - 1));
    }
}

pub proof fn lemma_entry_models(es: Seq<(Vec<u8>, Value)>)
    ensures
        entry_models(es).len() == es.len(),
        forall|i: int|
            0 <= i < es.len() ==> #[trigger] entry_models(es)[i] == (es[i].0@, value_model(es[i].1)),
    decreases es.len(),
{
    if es.len() > 0 {
        lemma_entry_models(es.subrange(0, es.len() - 1));
    }
}

// ---------------------------------------------------------------- encoding

/// `<length>:<bytes>`
pub open spec fn enc_bytes(b: Seq<u8>) -> Seq<u8> {
    dec(b.len()) + seq![58u8] + b
}

/// The bencode encoding of a value, dictionary entries in the order held.
pub open spec fn enc(v: SValue) -> Seq<u8>
    decreases v,
{
    match v {
        SValue::Int(i) => seq![105u8] + dec_int(i) + seq![101u8],
        SValue::Bytes(b) => enc_bytes(b),
        SValue::List(xs) => seq![108u8] + enc_list(xs) + seq![101u8],
        SValue::Dict(es) => seq![100u8] + enc_dict(es) + seq![101u8],
    }
}

pub open spec fn enc_list(xs: Seq<SValue>) -> Seq<u8>
    decreases xs,
{
    if xs.len() == 0 {
        Seq::empty()
    } else {
        enc_list(xs.subrange(0, xs.len() - 1)) + enc(xs[xs.len() - 1])
    }
}

pub open spec fn enc_dict(es: Seq<(Seq<u8>, SValue)>) -> Seq<u8>
    decreases es,
{
    if es.len() == 0 {
        Seq::empty()
    } else {
        enc_dict(es.subrange(0, es.len() - 1)) + enc_bytes(es[es.len() - 1].0) + enc(
            es[es.len() - 1].1,
        )
    }
}

/// Appends `<length>:<bytes>` to `out`.
pub fn push_bytes(b: &[u8], out: &mut Vec<u8>)
    ensures
        final(out)@ == old(out)@ + enc_bytes(b@),
{
    push_decimal(out, b.len() as u64);
    out.push(58u8);
    let ghost mid = out@;
    let mut i: usize = 0;
    while i < b.len()
        invariant
            i <= b.len(),
            mid == old(out)@ + dec(b@.len()) + seq![58u8],
            out@ == mid + b@.subrange(0, i as int),
        decreases b.len() - i,
    {
        out.push(b[i]);
        i = i + 1;
        assert(out@ =~= mid + b@.subrange(0, i as int));
    }
    assert(b@.subrange(0, b.len() as int) =~= b@);
    assert(out@ =~= old(out)@ + enc_bytes(b@));
}

/// Appends the encoding of `v` to `out`.
pub fn encode_into(v: &Value, out: &mut Vec<u8>)
    ensures
        final(out)@ == old(out)@ + enc(v@),
    decreases v,
{
    match v {
        Value::Integer(i) => {
            out.push(105u8);
            push_signed_decimal(out, *i);
            out.push(101u8);
            assert(out@ =~= old(out)@ + enc(v@));
        },
        Value::Bytes(b) => {
            push_bytes(b.as_slice(), out);
        },
        Value::List(xs) => {
            out.push(108u8);
            let ghost start = out@;
            let ghost ms = models(xs@);
            proof {
                lemma_models(xs@);
            }
            let mut i: usize = 0;
            while i < xs.len()
                invariant
                    i <= xs.len(),
                    v is List,
                    *xs == v->List_0,
                    ms == models(xs@),
                    ms.len() == xs.len(),
                    forall|k: int| 0 <= k < xs.len() ==> #[trigger] ms[k] == value_model(xs@[k]),
                    out@ == start + enc_list(ms.subrange(0, i as int)),
                decreases xs.len() - i,
            {
                proof {
                    vstd::std_specs::vec::axiom_vec_index_decreases(*xs, i as int);
                    assert(decreases_to!(*v => v->List_0));
                }
                encode_into(&xs[i], out);
                assert(ms.subrange(0, i + 1).subrange(0, i as int) =~= ms.subrange(0, i as int));
                i = i + 1;
                assert(out@ =~= start + enc_list(ms.subrange(0, i as int)));
            }
            assert(ms.subrange(0, i as int) =~= ms);
            out.push(101u8);
            assert(out@ =~= old(out)@ + enc(v@));
        },
        Value::Dict(es) => {
            out.push(100u8);
            let ghost start = out@;
            let ghost ms = entry_models(es@);
            proof {
                lemma_entry_models(es@);
            }
            let mut i: usize = 0;
            while i < es.len()
                invariant
                    i <= es.len(),
                    v is Dict,
                    *es == v->Dict_0,
                    ms == entry_models(es@),
                    ms.len() == es.len(),
                    forall|k: int|
                        0 <= k < es.len() ==> #[trigger] ms[k] == (es@[k].0@, value_model(es@[k].1)),
                    out@ == start + enc_dict(ms.subrange(0, i as int)),
                decreases es.len() - i,
            {
                let entry = &es[i];
                push_bytes(entry.0.as_slice(), out);
                proof {
                    vstd::std_specs::vec::axiom_vec_index_decreases(*es, i as int);
                    assert(decreases_to!(*v => v->Dict_0));
                    assert(decreases_to!(es[i as int] => es[i as int].1));
                }
                encode_into(&entry.1, out);
                assert(ms.subrange(0, i + 1).subrange(0, i as int) =~= ms.subrange(0, i as int));
                i = i + 1;
                assert(out@ =~= start + enc_dict(ms.subrange(0, i as int)));
            }
            assert(ms.subrange(0, i as int) =~= ms);
            out.push(101u8);
            assert(out@ =~= old(out)@ + enc(v@));
        },
    }
}

/// The bencode encoding of `v`, dictionary entries in the order held.
/// Canonical key order is the business of the schema types (`Info`), whose
/// encoders write their keys sorted; a generic value decoded from input
/// re-encodes to exactly that input.
pub fn encode(v: &Value) -> (r: Vec<u8>)
    ensures
        r@ == enc(v@),
{
    let mut out: Vec<u8> = Vec::new();
    encode_into(v, &mut out);
    assert(out@ =~= enc(v@));
    out
}

// ---------------------------------------------------------------- decoding

/// End of the run of ASCII digits that starts at `p`.
pub open spec fn digit_run(s: Seq<u8>, p: int) -> int
    decreases s.len() - p,
{
    if 0 <= p < s.len() && is_digit(s[p]) {
        digit_run(s, p + 1)
    } else {
        p
    }
}

/// The integer production after its `i`: the value and the position after `e`.
pub open spec fn parse_int(s: Seq<u8>, p: int) -> Result<(int, int), DecodeError> {
    let neg = 0 <= p < s.len() && s[p] == 45;
    let ds = if neg { p + 1 } else { p };
    let de = digit_run(s, ds);
    if de >= s.len() {
        Err(DecodeError::Truncated)
    } else if s[de] != 101 || de == ds {
        Err(DecodeError::Malformed)
    } else if s[ds] == 48 && (de - ds > 1 || neg) {
        Err(DecodeError::Malformed)
    } else {
        let m = digits_value(s.subrange(ds, de));
        let i = if neg { -m } else { m };
        if i64::MIN <= i <= i64::MAX {
            Ok((i, de + 1))
        } else {
            Err(DecodeError::Malformed)
        }
    }
}

/// The byte-string production at `p`: the bytes and the position after them.
pub open spec fn parse_str(s: Seq<u8>, p: int) -> Result<(Seq<u8>, int), DecodeError> {
    let de = digit_run(s, p);
    if de >= s.len() {
        Err(DecodeError::Truncated)
    } else if s[de] != 58 || de == p {
        Err(DecodeError::Malformed)
    } else if s[p] == 48 && de - p > 1 {
        Err(DecodeError::Malformed)
    } else {
        let n = digits_value(s.subrange(p, de));
        if de + 1 + n > s.len() {
            Err(DecodeError::Truncated)
        } else {
            Ok((s.subrange(de + 1, de + 1 + n), de + 1 + n))
        }
    }
}

/// The value at `p`, with at most `d` levels of lists and dictionaries,
/// and the position after it.
pub open spec fn parse_value(s: Seq<u8>, p: int, d: nat) -> Result<(SValue, int), DecodeError>
    decreases s.len() - p, 0int,
{
    if p < 0 || p >= s.len() {
        Err(DecodeError::Truncated)
    } else if s[p] == 105 {
        match parse_int(s, p + 1) {
            Ok((i, e)) => Ok((SValue::Int(i), e)),
            Err(x) => Err(x),
        }
    } else if is_digit(s[p]) {
        match parse_str(s, p) {
            Ok((b, e)) => Ok((SValue::Bytes(b), e)),
            Err(x) => Err(x),
        }
    } else if s[p] == 108 {
        if d == 0 {
            Err(DecodeError::TooDeep)
        } else {
            match parse_list(s, p + 1, (d - 1) as nat) {
                Ok((xs, e)) => Ok((SValue::List(xs), e)),
                Err(x) => Err(x),
            }
        }
    } else if s[p] == 100 {
        if d == 0 {
            Err(DecodeError::TooDeep)
        } else {
            match parse_dict(s, p + 1, (d - 1) as nat) {
                Ok((es, e)) => Ok((SValue::Dict(es), e)),
                Err(x) => Err(x),
            }
        }
    } else {
        Err(DecodeError::Malformed)
    }
}

/// List elements from `p` up to and including the closing `e`.
pub open spec fn parse_list(s: Seq<u8>, p: int, d: nat) -> Result<(Seq<SValue>, int), DecodeError>
    decreases s.len() - p, 1int,
{
    if p < 0 || p >= s.len() {
        Err(DecodeError::Truncated)
    } else if s[p] == 101 {
        Ok((Seq::empty(), p + 1))
    } else {
        match parse_value(s, p, d) {
            Err(x) => Err(x),
            Ok((v, q)) => if q <= p || q > s.len() {
                Err(DecodeError::Malformed)
            } else {
                match parse_list(s, q, d) {
                    Ok((xs, e)) => Ok((seq![v] + xs, e)),
                    Err(x) => Err(x),
                }
            },
        }
    }
}

/// Dictionary entries from `p` up to and including the closing `e`.
pub open spec fn parse_dict(s: Seq<u8>, p: int, d: nat) -> Result<
    (Seq<(Seq<u8>, SValue)>, int),
    DecodeError,
>
    decreases s.len() - p, 1int,
{
    if p < 0 || p >= s.len() {
        Err(DecodeError::Truncated)
    } else if s[p] == 101 {
        Ok((Seq::empty(), p + 1))
    } else if !is_digit(s[p]) {
        Err(DecodeError::Malformed)
    } else {
        match parse_str(s, p) {
            Err(x) => Err(x),
            Ok((k, q)) => if q <= p || q > s.len() {
                Err(DecodeError::Malformed)
            } else {
                match parse_value(s, q, d) {
                    Err(x) => Err(x),
                    Ok((v, r)) => if r <= q || r > s.len() {
                        Err(DecodeError::Malformed)
                    } else {
                        match parse_dict(s, r, d) {
                            Ok((es, e)) => Ok((seq![(k, v)] + es, e)),
                            Err(x) => Err(x),
                        }
                    },
                }
            },
        }
    }
}

/// What `decode` answers for the bytes `s`.
pub open spec fn decode_spec(s: Seq<u8>) -> Result<(SValue, int), DecodeError> {
    parse_value(s, 0, MAX_DEPTH as nat)
}

/// Facts about a run of digits.
pub proof fn lemma_digit_run(s: Seq<u8>, p: int)
    requires
        0 <= p <= s.len(),
    ensures
        p <= digit_run(s, p) <= s.len(),
        forall|k: int| p <= k < digit_run(s, p) ==> is_digit(#[trigger] s[k]),
        digit_run(s, p) < s.len() ==> !is_digit(s[digit_run(s, p)]),
    decreases s.len() - p,
{
    if p < s.len() && is_digit(s[p]) {
        lemma_digit_run(s, p + 1);
    }
}

/// A run of digits has a non-negative value that grows as the run extends.
pub proof fn lemma_digits_value_grows(s: Seq<u8>, p: int, i: int, e: int)
    requires
        0 <= p <= i <= e <= s.len(),
        forall|k: int| p <= k < e ==> is_digit(#[trigger] s[k]),
    ensures
        0 <= digits_value(s.subrange(p, i)) <= digits_value(s.subrange(p, e)),
    decreases e - p,
{
    if e > p {
        assert(s.subrange(p, e).drop_last() =~= s.subrange(p, e - 1));
        if i < e {
            lemma_digits_value_grows(s, p, i, e - 1);
        } else {
            lemma_digits_value_grows(s, p, i - 1, e - 1);
        }
    }
}

fn scan_digits(s: &[u8], p: usize) -> (e: usize)
    requires
        p <= s.len(),
    ensures
        e as int == digit_run(s@, p as int),
{
    let mut i = p;
    while i < s.len() && 48u8 <= s[i] && s[i] <= 57u8
        invariant
            p <= i <= s.len(),
            digit_run(s@, p as int) == digit_run(s@, i as int),
        decreases s.len() - i,
    {
        i = i + 1;
    }
    i
}

/// The value of the digits `s[p..e]`, or `None` where it exceeds `cap`.
fn read_number(s: &[u8], p: usize, e: usize, cap: u64) -> (r: Option<u64>)
    requires
        p <= e <= s.len(),
        forall|k: int| p <= k < e ==> is_digit(#[trigger] s@[k]),
    ensures
        match r {
            Some(x) => x as int == digits_value(s@.subrange(p as int, e as int)) && x <= cap,
            None => digits_value(s@.subrange(p as int, e as int)) > cap,
        },
{
    let mut acc: u64 = 0;
    let mut i = p;
    assert(s@.subrange(p as int, p as int) =~= Seq::<u8>::empty());
    while i < e
        invariant
            p <= i <= e <= s.len(),
            forall|k: int| p <= k < e ==> is_digit(#[trigger] s@[k]),
            acc as int == digits_value(s@.subrange(p as int, i as int)),
            acc <= cap,
        decreases e - i,
    {
        let next: u128 = 10 * (acc as u128) + ((s[i] - 48u8) as u128);
        assert(s@.subrange(p as int, i + 1).drop_last() =~= s@.subrange(p as int, i as int));
        if next > cap as u128 {
            proof {
                lemma_digits_value_grows(s@, p as int, i + 1, e as int);
            }
            return None;
        }
        acc = next as u64;
        i = i + 1;
    }
    Some(acc)
}

pub open spec fn int_result(r: Result<(i64, usize), DecodeError>) -> Result<(int, int), DecodeError> {
    match r {
        Ok((i, e)) => Ok((i as int, e as int)),
        Err(x) => Err(x),
    }
}

fn parse_int_at(s: &[u8], p: usize) -> (r: Result<(i64, usize), DecodeError>)
    requires
        p <= s.len(),
    ensures
        int_result(r) == parse_int(s@, p as int),
{
    let neg = p < s.len() && s[p] == 45u8;
    let ds = if neg { p + 1 } else { p };
    let de = scan_digits(s, ds);
    proof {
        lemma_digit_run(s@, ds as int);
    }
    if de >= s.len() {
        return Err(DecodeError::Truncated);
    }
    if s[de] != 101u8 || de == ds {
        return Err(DecodeError::Malformed);
    }
    if s[ds] == 48u8 && (de - ds > 1 || neg) {
        return Err(DecodeError::Malformed);
    }
    match read_number(s, ds, de, 9223372036854775808u64) {
        None => Err(DecodeError::Malformed),
        Some(m) => {
            if neg {
                Ok(((0i128 - m as i128) as i64, de + 1))
            } else if m > 9223372036854775807u64 {
                Err(DecodeError::Malformed)
            } else {
                Ok((m as i64, de + 1))
            }
        },
    }
}

pub open spec fn bytes_result(r: Result<(Vec<u8>, usize), DecodeError>) -> Result<(Seq<u8>, int), DecodeError> {
    match r {
        Ok((b, e)) => Ok((b@, e as int)),
        Err(x) => Err(x),
    }
}

fn parse_str_at(s: &[u8], p: usize) -> (r: Result<(Vec<u8>, usize), DecodeError>)
    requires
        p <= s.len(),
    ensures
        bytes_result(r) == parse_str(s@, p as int),
{
    let de = scan_digits(s, p);
    proof {
        lemma_digit_run(s@, p as int);
    }
    if de >= s.len() {
        return Err(DecodeError::Truncated);
    }
    if s[de] != 58u8 || de == p {
        return Err(DecodeError::Malformed);
    }
    if s[p] == 48u8 && de - p > 1 {
        return Err(DecodeError::Malformed);
    }
    let room = s.len() - de - 1;
    match read_number(s, p, de, room as u64) {
        None => Err(DecodeError::Truncated),
        Some(n) => {
            let start = de + 1;
            let end = start + n as usize;
            let mut b: Vec<u8> = Vec::new();
            let mut k = start;
            while k < end
                invariant
                    start <= k <= end <= s.len(),
                    b@ == s@.subrange(start as int, k as int),
                decreases end - k,
            {
                b.push(s[k]);
                k = k + 1;
                assert(b@ =~= s@.subrange(start as int, k as int));
            }
            Ok((b, end))
        },
    }
}

pub open spec fn value_result(r: Result<(Value, usize), DecodeError>) -> Result<(SValue, int), DecodeError> {
    match r {
        Ok((v, e)) => Ok((v@, e as int)),
        Err(x) => Err(x),
    }
}

pub open spec fn prefix_list(pre: Seq<SValue>, r: Result<(Seq<SValue>, int), DecodeError>) -> Result<
    (Seq<SValue>, int),
    DecodeError,
> {
    match r {
        Ok((xs, e)) => Ok((pre + xs, e)),
        Err(x) => Err(x),
    }
}

pub open spec fn prefix_dict(
    pre: Seq<(Seq<u8>, SValue)>,
    r: Result<(Seq<(Seq<u8>, SValue)>, int), DecodeError>,
) -> Result<(Seq<(Seq<u8>, SValue)>, int), DecodeError> {
    match r {
        Ok((es, e)) => Ok((pre + es, e)),
        Err(x) => Err(x),
    }
}

fn parse_value_at(s: &[u8], p: usize, d: usize) -> (r: Result<(Value, usize), DecodeError>)
    requires
        p <= s.len(),
    ensures
        value_result(r) == parse_value(s@, p as int, d as nat),
    decreases s.len() - p, 0int,
{
    if p >= s.len() {
        return Err(DecodeError::Truncated);
    }
    let c = s[p];
    if c == 105u8 {
        match parse_int_at(s, p + 1) {
            Ok((i, e)) => Ok((Value::Integer(i), e)),
            Err(x) => Err(x),
        }
    } else if 48u8 <= c && c <= 57u8 {
        match parse_str_at(s, p) {
            Ok((b, e)) => Ok((Value::Bytes(b), e)),
            Err(x) => Err(x),
        }
    } else if c == 108u8 {
        if d == 0 {
            Err(DecodeError::TooDeep)
        } else {
            match parse_list_at(s, p + 1, d - 1) {
                Ok((xs, e)) => Ok((Value::List(xs), e)),
                Err(x) => Err(x),
            }
        }
    } else if c == 100u8 {
        if d == 0 {
            Err(DecodeError::TooDeep)
        } else {
            match parse_dict_at(s, p + 1, d - 1) {
                Ok((es, e)) => Ok((Value::Dict(es), e)),
                Err(x) => Err(x),
            }
        }
    } else {
        Err(DecodeError::Malformed)
    }
}

fn parse_list_at(s: &[u8], p: usize, d: usize) -> (r: Result<(Vec<Value>, usize), DecodeError>)
    requires
        p <= s.len(),
    ensures
        match r {
            Ok((xs, e)) => parse_list(s@, p as int, d as nat) == Ok::<(Seq<SValue>, int), DecodeError>((models(xs@), e as int)),
            Err(x) => parse_list(s@, p as int, d as nat) == Err::<(Seq<SValue>, int), DecodeError>(x),
        },
    decreases s.len() - p, 1int,
{
    let mut acc: Vec<Value> = Vec::new();
    let mut q = p;
    assert(prefix_list(Seq::empty(), parse_list(s@, p as int, d as nat)) == parse_list(s@, p as int, d as nat)) by {
        match parse_list(s@, p as int, d as nat) {
            Ok((xs, e)) => assert(Seq::<SValue>::empty() + xs =~= xs),
            Err(x) => {},
        }
    }
    while q < s.len() && s[q] != 101u8
        invariant
            p <= q <= s.len(),
            parse_list(s@, p as int, d as nat) == prefix_list(models(acc@), parse_list(s@, q as int, d as nat)),
        decreases s.len() - q,
    {
        match parse_value_at(s, q, d) {
            Err(x) => return Err(x),
            Ok((v, r)) => {
                if r <= q || r > s.len() {
                    return Err(DecodeError::Malformed);
                }
                let ghost pre = models(acc@);
                let ghost vm = v@;
                let ghost old_acc = acc@;
                acc.push(v);
                assert(acc@.subrange(0, acc@.len() - 1) =~= old_acc);
                q = r;
                proof {
                    assert(models(acc@) == pre.push(vm));
                    match parse_list(s@, q as int, d as nat) {
                        Ok((xs, e)) => assert(pre.push(vm) + xs =~= pre + (seq![vm] + xs)),
                        Err(x) => {},
                    }
                }
            },
        }
    }
    if q >= s.len() {
        return Err(DecodeError::Truncated);
    }
    assert(models(acc@) + Seq::<SValue>::empty() =~= models(acc@));
    Ok((acc, q + 1))
}

fn parse_dict_at(s: &[u8], p: usize, d: usize) -> (r: Result<(Vec<(Vec<u8>, Value)>, usize), DecodeError>)
    requires
        p <= s.len(),
    ensures
        match r {
            Ok((es, e)) => parse_dict(s@, p as int, d as nat) == Ok::<(Seq<(Seq<u8>, SValue)>, int), DecodeError>((entry_models(es@), e as int)),
            Err(x) => parse_dict(s@, p as int, d as nat) == Err::<(Seq<(Seq<u8>, SValue)>, int), DecodeError>(x),
        },
    decreases s.len() - p, 1int,
{
    let mut acc: Vec<(Vec<u8>, Value)> = Vec::new();
    let mut q = p;
    assert(prefix_dict(Seq::empty(), parse_dict(s@, p as int, d as nat)) == parse_dict(s@, p as int, d as nat)) by {
        match parse_dict(s@, p as int, d as nat) {
            Ok((es, e)) => assert(Seq::<(Seq<u8>, SValue)>::empty() + es =~= es),
            Err(x) => {},
        }
    }
    while q < s.len() && s[q] != 101u8
        invariant
            p <= q <= s.len(),
            parse_dict(s@, p as int, d as nat) == prefix_dict(entry_models(acc@), parse_dict(s@, q as int, d as nat)),
        decreases s.len() - q,
    {
        if !(48u8 <= s[q] && s[q] <= 57u8) {
            return Err(DecodeError::Malformed);
        }
        let (k, kq) = match parse_str_at(s, q) {
            Err(x) => return Err(x),
            Ok(pair) => pair,
        };
        if kq <= q || kq > s.len() {
            return Err(DecodeError::Malformed);
        }
        match parse_value_at(s, kq, d) {
            Err(x) => return Err(x),
            Ok((v, r)) => {
                if r <= kq || r > s.len() {
                    return Err(DecodeError::Malformed);
                }
                let ghost pre = entry_models(acc@);
                let ghost em = (k@, v@);
                let ghost old_acc = acc@;
                acc.push((k, v));
                assert(acc@.subrange(0, acc@.len() - 1) =~= old_acc);
                q = r;
                proof {
                    assert(entry_models(acc@) == pre.push(em));
                    match parse_dict(s@, q as int, d as nat) {
                        Ok((es, e)) => assert(pre.push(em) + es =~= pre + (seq![em] + es)),
                        Err(x) => {},
                    }
                }
            },
        }
    }
    if q >= s.len() {
        return Err(DecodeError::Truncated);
    }
    assert(entry_models(acc@) + Seq::<(Seq<u8>, SValue)>::empty() =~= entry_models(acc@));
    Ok((acc, q + 1))
}

/// Decodes one value from the front of `s`: the value and the number of
/// bytes it took. What follows is left to the caller.
pub fn decode(s: &[u8]) -> (r: Result<(Value, usize), DecodeError>)
    ensures
        value_result(r) == decode_spec(s@),
        r matches Ok((v, n)) ==> 0 < n <= s.len() && enc(v@) == s@.subrange(0, n as int),
{
    proof {
        lemma_parse_sound(s@, 0, MAX_DEPTH as nat);
    }
    parse_value_at(s, 0, MAX_DEPTH)
}


// ---------------------------------------------------------------- laws

pub proof fn lemma_enc_list_cons(v: SValue, xs: Seq<SValue>)
    ensures
        enc_list(seq![v] + xs) == enc(v) + enc_list(xs),
    decreases xs.len(),
{
    let ys = seq![v] + xs;
    if xs.len() == 0 {
        assert(ys.subrange(0, 0) =~= Seq::<SValue>::empty());
        assert(ys[0] == v);
        assert(enc_list(ys) == enc_list(ys.subrange(0, 0)) + enc(v));
        assert(enc_list(xs) == Seq::<u8>::empty());
        assert(enc_list(ys) =~= enc(v) + enc_list(xs));
    } else {
        let xs0 = xs.subrange(0, xs.len() - 1);
        lemma_enc_list_cons(v, xs0);
        assert(ys.subrange(0, ys.len() - 1) =~= seq![v] + xs0);
        assert(ys[ys.len() - 1] == xs[xs.len() - 1]);
        assert(enc_list(xs) == enc_list(xs0) + enc(xs[xs.len() - 1]));
        assert(enc_list(ys) == enc_list(seq![v] + xs0) + enc(xs[xs.len() - 1]));
        assert(enc_list(ys) =~= enc(v) + enc_list(xs));
    }
}

pub proof fn lemma_enc_dict_cons(k: Seq<u8>, v: SValue, es: Seq<(Seq<u8>, SValue)>)
    ensures
        enc_dict(seq![(k, v)] + es) == enc_bytes(k) + enc(v) + enc_dict(es),
    decreases es.len(),
{
    let ys = seq![(k, v)] + es;
    if es.len() == 0 {
        assert(ys.subrange(0, 0) =~= Seq::<(Seq<u8>, SValue)>::empty());
        assert(ys[0] == (k, v));
        assert(enc_dict(ys) == enc_dict(ys.subrange(0, 0)) + enc_bytes(k) + enc(v));
        assert(enc_dict(es) == Seq::<u8>::empty());
        assert(enc_dict(ys) =~= enc_bytes(k) + enc(v) + enc_dict(es));
    } else {
        let es0 = es.subrange(0, es.len() - 1);
        lemma_enc_dict_cons(k, v, es0);
        assert(ys.subrange(0, ys.len() - 1) =~= seq![(k, v)] + es0);
        let last = es[es.len() - 1];
        assert(ys[ys.len() - 1] == last);
        assert(enc_dict(es) == enc_dict(es0) + enc_bytes(last.0) + enc(last.1));
        assert(enc_dict(ys) == enc_dict(seq![(k, v)] + es0) + enc_bytes(last.0) + enc(last.1));
        assert(enc_dict(ys) =~= enc_bytes(k) + enc(v) + enc_dict(es));
    }
}

pub proof fn lemma_parse_int_sound(s: Seq<u8>, p: int)
    requires
        0 <= p <= s.len(),
    ensures
        parse_int(s, p) matches Ok((i, e)) ==> p < e <= s.len() && s.subrange(p, e) == dec_int(i)
            + seq![101u8],
{
    let neg = 0 <= p < s.len() && s[p] == 45;
    let ds = if neg { p + 1 } else { p };
    lemma_digit_run(s, ds);
    let de = digit_run(s, ds);
    if let Ok((i, e)) = parse_int(s, p) {
        let t = s.subrange(ds, de);
        lemma_canonical_digits(t);
        if neg {
            assert(s.subrange(p, e) =~= seq![45u8] + t + seq![101u8]);
        } else {
            assert(s.subrange(p, e) =~= t + seq![101u8]);
        }
    }
}

pub proof fn lemma_parse_str_sound(s: Seq<u8>, p: int)
    requires
        0 <= p <= s.len(),
    ensures
        parse_str(s, p) matches Ok((b, e)) ==> p < e <= s.len() && s.subrange(p, e) == enc_bytes(b),
{
    lemma_digit_run(s, p);
    let de = digit_run(s, p);
    if let Ok((b, e)) = parse_str(s, p) {
        let t = s.subrange(p, de);
        lemma_canonical_digits(t);
        assert(s.subrange(p, e) =~= t + seq![58u8] + b);
    }
}

/// Whatever the decoder accepts re-encodes to exactly the bytes it consumed.
pub proof fn lemma_parse_sound(s: Seq<u8>, p: int, d: nat)
    ensures
        parse_value(s, p, d) matches Ok((v, e)) ==> p < e <= s.len() && s.subrange(p, e) == enc(v),
    decreases s.len() - p, 0int,
{
    if 0 <= p < s.len() {
        if s[p] == 105 {
            lemma_parse_int_sound(s, p + 1);
            if let Ok((i, e)) = parse_int(s, p + 1) {
                assert(s.subrange(p, e) =~= seq![105u8] + s.subrange(p + 1, e));
            }
        } else if is_digit(s[p]) {
            lemma_parse_str_sound(s, p);
        } else if s[p] == 108 && d > 0 {
            lemma_list_sound(s, p + 1, (d - 1) as nat);
            if let Ok((xs, e)) = parse_list(s, p + 1, (d - 1) as nat) {
                assert(s.subrange(p, e) =~= seq![108u8] + s.subrange(p + 1, e));
            }
        } else if s[p] == 100 && d > 0 {
            lemma_dict_sound(s, p + 1, (d - 1) as nat);
            if let Ok((es, e)) = parse_dict(s, p + 1, (d - 1) as nat) {
                assert(s.subrange(p, e) =~= seq![100u8] + s.subrange(p + 1, e));
            }
        }
    }
}

pub proof fn lemma_list_sound(s: Seq<u8>, p: int, d: nat)
    ensures
        parse_list(s, p, d) matches Ok((xs, e)) ==> p < e <= s.len() && s.subrange(p, e) == enc_list(xs)
            + seq![101u8],
    decreases s.len() - p, 1int,
{
    if 0 <= p < s.len() {
        if s[p] == 101 {
            assert(s.subrange(p, p + 1) =~= enc_list(Seq::empty()) + seq![101u8]);
        } else {
            lemma_parse_sound(s, p, d);
            if let Ok((v, q)) = parse_value(s, p, d) {
                if p < q <= s.len() {
                    lemma_list_sound(s, q, d);
                    if let Ok((xs, e)) = parse_list(s, q, d) {
                        lemma_enc_list_cons(v, xs);
                        assert(s.subrange(p, e) =~= s.subrange(p, q) + s.subrange(q, e));
                    }
                }
            }
        }
    }
}

pub proof fn lemma_dict_sound(s: Seq<u8>, p: int, d: nat)
    ensures
        parse_dict(s, p, d) matches Ok((es, e)) ==> p < e <= s.len() && s.subrange(p, e) == enc_dict(es)
            + seq![101u8],
    decreases s.len() - p, 1int,
{
    if 0 <= p < s.len() {
        if s[p] == 101 {
            assert(s.subrange(p, p + 1) =~= enc_dict(Seq::empty()) + seq![101u8]);
        } else if is_digit(s[p]) {
            lemma_parse_str_sound(s, p);
            if let Ok((k, q)) = parse_str(s, p) {
                if p < q <= s.len() {
                    lemma_parse_sound(s, q, d);
                    if let Ok((v, r)) = parse_value(s, q, d) {
                        if q < r <= s.len() {
                            lemma_dict_sound(s, r, d);
                            if let Ok((es, e)) = parse_dict(s, r, d) {
                                lemma_enc_dict_cons(k, v, es);
                                assert(s.subrange(p, e) =~= s.subrange(p, q) + s.subrange(q, r)
                                    + s.subrange(r, e));
                            }
                        }
                    }
                }
            }
        }
    }
}

/// A value that `decode` can produce within `d` levels of nesting: integers
/// fit `i64`.
pub open spec fn wf_value(v: SValue, d: nat) -> bool
    decreases v,
{
    match v {
        SValue::Int(i) => i64::MIN <= i <= i64::MAX,
        SValue::Bytes(_) => true,
        SValue::List(xs) => d > 0 && wf_list(xs, (d - 1) as nat),
        SValue::Dict(es) => d > 0 && wf_dict(es, (d - 1) as nat),
    }
}

pub open spec fn wf_list(xs: Seq<SValue>, d: nat) -> bool
    decreases xs,
{
    xs.len() > 0 ==> wf_value(xs[0], d) && wf_list(xs.subrange(1, xs.len() as int), d)
}

pub open spec fn wf_dict(es: Seq<(Seq<u8>, SValue)>, d: nat) -> bool
    decreases es,
{
    es.len() > 0 ==> wf_value(es[0].1, d) && wf_dict(es.subrange(1, es.len() as int), d)
}

/// Decoding the encoding of a value gives the value back, having consumed
/// the whole encoding.
pub proof fn lemma_value_round_trip(v: SValue)
    requires
        wf_value(v, MAX_DEPTH as nat),
    ensures
        decode_spec(enc(v)) == Ok::<(SValue, int), DecodeError>((v, enc(v).len() as int)),
{
    assert(enc(v).subrange(0, enc(v).len() as int) =~= enc(v));
    lemma_parse_complete(enc(v), 0, v, MAX_DEPTH as nat);
}

proof fn lemma_digit_run_exact(s: Seq<u8>, p: int, q: int)
    requires
        0 <= p <= q < s.len(),
        forall|k: int| p <= k < q ==> is_digit(#[trigger] s[k]),
        !is_digit(s[q]),
    ensures
        digit_run(s, p) == q,
    decreases q - p,
{
    if p < q {
        lemma_digit_run_exact(s, p + 1, q);
    }
}

proof fn lemma_window(s: Seq<u8>, p: int, t: Seq<u8>, a: int, b: int)
    requires
        0 <= p,
        p + t.len() <= s.len(),
        s.subrange(p, p + t.len()) == t,
        0 <= a <= b <= t.len(),
    ensures
        s.subrange(p + a, p + b) == t.subrange(a, b),
{
    assert forall|k: int| 0 <= k < b - a implies s.subrange(p + a, p + b)[k] == t.subrange(a, b)[k] by {
        assert(s.subrange(p, p + t.len())[a + k] == s[p + a + k]);
    }
    assert(s.subrange(p + a, p + b) =~= t.subrange(a, b));
}

proof fn lemma_enc_first(v: SValue)
    ensures
        enc(v).len() > 0,
        enc(v)[0] != 101u8,
        enc(v)[0] == 105u8 ==> v is Int,
        enc(v)[0] == 108u8 ==> v is List,
        enc(v)[0] == 100u8 ==> v is Dict,
        is_digit(enc(v)[0]) ==> v is Bytes,
{
    if let SValue::Bytes(b) = v {
        lemma_dec(b.len());
        assert(enc(v)[0] == dec(b.len())[0]);
    }
}

proof fn lemma_parse_int_complete(s: Seq<u8>, p: int, i: int)
    requires
        0 <= p,
        i64::MIN <= i <= i64::MAX,
        p + dec_int(i).len() + 1 <= s.len(),
        s.subrange(p, p + dec_int(i).len() + 1) == dec_int(i) + seq![101u8],
    ensures
        parse_int(s, p) == Ok::<(int, int), DecodeError>((i, p + dec_int(i).len() + 1)),
{
    let t = dec_int(i) + seq![101u8];
    let n: nat = if i < 0 { (-i) as nat } else { i as nat };
    lemma_dec(n);
    let ds = if i < 0 { p + 1 } else { p };
    let de = p + dec_int(i).len();
    assert(s[p] == t[0]);
    assert forall|k: int| ds <= k < de implies is_digit(#[trigger] s[k]) by {
        assert(s[k] == t[k - p]);
        if i < 0 {
            assert(t[k - p] == dec(n)[k - p - 1]);
        } else {
            assert(t[k - p] == dec(n)[k - p]);
        }
    }
    assert(s[de] == t[de - p]);
    lemma_digit_run_exact(s, ds, de);
    lemma_window(s, p, t, ds - p, de - p);
    assert(t.subrange(ds - p, de - p) =~= dec(n));
    if i < 0 {
        assert(s[ds] == dec(n)[0]);
    } else {
        assert(s[ds] == dec(n)[0]);
    }
}

proof fn lemma_parse_str_complete(s: Seq<u8>, p: int, b: Seq<u8>)
    requires
        0 <= p,
        p + enc_bytes(b).len() <= s.len(),
        s.subrange(p, p + enc_bytes(b).len()) == enc_bytes(b),
    ensures
        parse_str(s, p) == Ok::<(Seq<u8>, int), DecodeError>((b, p + enc_bytes(b).len())),
{
    let t = enc_bytes(b);
    lemma_dec(b.len());
    let de = p + dec(b.len()).len();
    assert forall|k: int| p <= k < de implies is_digit(#[trigger] s[k]) by {
        assert(s[k] == t[k - p]);
    }
    assert(s[de] == t[de - p]);
    lemma_digit_run_exact(s, p, de);
    lemma_window(s, p, t, 0, de - p);
    assert(t.subrange(0, de - p) =~= dec(b.len()));
    assert(s[p] == t[0]);
    lemma_window(s, p, t, de + 1 - p, t.len() as int);
    assert(t.subrange(de + 1 - p, t.len() as int) =~= b);
}

/// The decoder accepts the encoding of every value it can hold, whatever
/// follows it.
pub proof fn lemma_parse_complete(s: Seq<u8>, p: int, v: SValue, d: nat)
    requires
        0 <= p,
        wf_value(v, d),
        p + enc(v).len() <= s.len(),
        s.subrange(p, p + enc(v).len()) == enc(v),
    ensures
        parse_value(s, p, d) == Ok::<(SValue, int), DecodeError>((v, p + enc(v).len())),
    decreases v,
{
    let t = enc(v);
    lemma_enc_first(v);
    assert(s[p] == t[0]);
    match v {
        SValue::Int(i) => {
            lemma_window(s, p, t, 1, t.len() as int);
            assert(t.subrange(1, t.len() as int) =~= dec_int(i) + seq![101u8]);
            lemma_parse_int_complete(s, p + 1, i);
        },
        SValue::Bytes(b) => {
            lemma_parse_str_complete(s, p, b);
        },
        SValue::List(xs) => {
            lemma_window(s, p, t, 1, t.len() as int);
            assert(t.subrange(1, t.len() as int) =~= enc_list(xs) + seq![101u8]);
            lemma_list_complete(s, p + 1, xs, (d - 1) as nat);
        },
        SValue::Dict(es) => {
            lemma_window(s, p, t, 1, t.len() as int);
            assert(t.subrange(1, t.len() as int) =~= enc_dict(es) + seq![101u8]);
            lemma_dict_complete(s, p + 1, es, (d - 1) as nat);
        },
    }
}

pub proof fn lemma_list_complete(s: Seq<u8>, p: int, xs: Seq<SValue>, d: nat)
    requires
        0 <= p,
        wf_list(xs, d),
        p + enc_list(xs).len() + 1 <= s.len(),
        s.subrange(p, p + enc_list(xs).len() + 1) == enc_list(xs) + seq![101u8],
    ensures
        parse_list(s, p, d) == Ok::<(Seq<SValue>, int), DecodeError>((xs, p + enc_list(xs).len() + 1)),
    decreases xs,
{
    let t = enc_list(xs) + seq![101u8];
    if xs.len() == 0 {
        assert(enc_list(xs) =~= Seq::<u8>::empty());
        assert(s[p] == t[0]);
        assert(xs =~= Seq::<SValue>::empty());
    } else {
        let x = xs[0];
        let rest = xs.subrange(1, xs.len() as int);
        assert(xs =~= seq![x] + rest);
        lemma_enc_list_cons(x, rest);
        lemma_enc_first(x);
        let q = p + enc(x).len();
        assert(s[p] == t[0]);
        lemma_window(s, p, t, 0, q - p);
        assert(t.subrange(0, q - p) =~= enc(x));
        lemma_parse_complete(s, p, x, d);
        lemma_window(s, p, t, q - p, t.len() as int);
        assert(t.subrange(q - p, t.len() as int) =~= enc_list(rest) + seq![101u8]);
        lemma_list_complete(s, q, rest, d);
    }
}

pub proof fn lemma_dict_complete(s: Seq<u8>, p: int, es: Seq<(Seq<u8>, SValue)>, d: nat)
    requires
        0 <= p,
        wf_dict(es, d),
        p + enc_dict(es).len() + 1 <= s.len(),
        s.subrange(p, p + enc_dict(es).len() + 1) == enc_dict(es) + seq![101u8],
    ensures
        parse_dict(s, p, d) == Ok::<(Seq<(Seq<u8>, SValue)>, int), DecodeError>(
            (es, p + enc_dict(es).len() + 1),
        ),
    decreases es,
{
    let t = enc_dict(es) + seq![101u8];
    if es.len() == 0 {
        assert(enc_dict(es) =~= Seq::<u8>::empty());
        assert(s[p] == t[0]);
        assert(es =~= Seq::<(Seq<u8>, SValue)>::empty());
    } else {
        let (k, x) = es[0];
        let rest = es.subrange(1, es.len() as int);
        assert(es =~= seq![(k, x)] + rest);
        lemma_enc_dict_cons(k, x, rest);
        let kb = enc_bytes(k);
        lemma_dec(k.len());
        assert(s[p] == t[0]);
        assert(t[0] == dec(k.len())[0]);
        let q = p + kb.len();
        let r = q + enc(x).len();
        lemma_window(s, p, t, 0, q - p);
        assert(t.subrange(0, q - p) =~= kb);
        lemma_parse_str_complete(s, p, k);
        lemma_window(s, p, t, q - p, r - p);
        assert(t.subrange(q - p, r - p) =~= enc(x));
        assert(decreases_to!(es => es[0]));
        lemma_parse_complete(s, q, x, d);
        lemma_window(s, p, t, r - p, t.len() as int);
        assert(t.subrange(r - p, t.len() as int) =~= enc_dict(rest) + seq![101u8]);
        lemma_dict_complete(s, r, rest, d);
    }
}
} // verus!
