//! A text projection of a generic bencode value for display: byte strings
//! are read as UTF-8 text, and a byte string that is not valid UTF-8 makes
//! the whole projection fail.
use vstd::prelude::*;
use vstd::utf8::{decode_utf8, valid_utf8};
use crate::bencode::{decode, decode_spec, entry_models, lemma_entry_models, lemma_models, models, value_model, DecodeError, SValue, Value};
use crate::text::{copy_bytes, utf8_text};

verus! {

broadcast use {vstd::std_specs::vec::group_vec_axioms, vstd::seq::group_seq_axioms};

/// Mathematical form of a display value.
pub enum DisplayModel {
    Number(int),
    Text(Seq<char>),
    Array(Seq<DisplayModel>),
    Object(Seq<(Seq<char>, DisplayModel)>),
}

/// A JSON-like value: numbers, text, arrays and objects with text keys,
/// each key once.
#[derive(Debug, PartialEq, Eq)]
pub enum DisplayValue {
    Number(i64),
    Text(String),
    Array(Vec<DisplayValue>),
    Object(Vec<(String, DisplayValue)>),
}

/// A byte string that is not valid UTF-8.
#[derive(Debug, Clone, Copy, PartialEq, Eq, Structural)]
pub enum DisplayError {
    InvalidText,
}

pub open spec fn display_model(v: DisplayValue) -> DisplayModel
    decreases v,
{
    match v {
        DisplayValue::Number(i) => DisplayModel::Number(i as int),
        DisplayValue::Text(t) => DisplayModel::Text(t@),
        DisplayValue::Array(xs) => DisplayModel::Array(display_models(xs@)),
        DisplayValue::Object(es) => DisplayModel::Object(member_models(es@)),
    }
}

pub open spec fn display_models(vs: Seq<DisplayValue>) -> Seq<DisplayModel>
    decreases vs,
{
    if vs.len() == 0 {
        Seq::empty()
    } else {
        display_models(vs.subrange(0, vs.len() - 1)).push(display_model(vs[vs.len() - 1]))
    }
}

pub open spec fn member_models(es: Seq<(String, DisplayValue)>) -> Seq<(Seq<char>, DisplayModel)>
    decreases es,
{
    if es.len() == 0 {
        Seq::empty()
    } else {
        member_models(es.subrange(0, es.len() - 1)).push(
            (es[es.len() - 1].0@, display_model(es[es.len() - 1].1)),
        )
    }
}

impl View for DisplayValue {
    type V = DisplayModel;

    open spec fn view(&self) -> DisplayModel {
        display_model(*self)
    }
}

/// UTF-8 text of bytes.
pub open spec fn text_of(b: Seq<u8>) -> Option<Seq<char>> {
    if valid_utf8(b) {
        Some(decode_utf8(b))
    } else {
        None
    }
}

/// The display form of a value; `None` where some byte string, key or
/// value, is not valid UTF-8.
pub open spec fn project(v: SValue) -> Option<DisplayModel>
    decreases v,
{
    match v {
        SValue::Int(i) => Some(DisplayModel::Number(i)),
        SValue::Bytes(b) => match text_of(b) {
            Some(t) => Some(DisplayModel::Text(t)),
            None => None,
        },
        SValue::List(xs) => match project_list(xs) {
            Some(ys) => Some(DisplayModel::Array(ys)),
            None => None,
        },
        SValue::Dict(es) => match project_dict(es) {
            Some(ms) => Some(DisplayModel::Object(ms)),
            None => None,
        },
    }
}

pub open spec fn project_list(xs: Seq<SValue>) -> Option<Seq<DisplayModel>>
    decreases xs,
{
    if xs.len() == 0 {
        Some(Seq::empty())
    } else {
        match project_list(xs.subrange(0, xs.len() - 1)) {
            None => None,
            Some(ys) => match project(xs[xs.len() - 1]) {
                None => None,
                Some(y) => Some(ys.push(y)),
            },
        }
    }
}

/// Position of the member with key `k`, or -1.
pub open spec fn member_index(ms: Seq<(Seq<char>, DisplayModel)>, k: Seq<char>) -> int
    decreases ms.len(),
{
    if ms.len() == 0 {
        -1
    } else if ms.last().0 == k {
        ms.len() - 1
    } else {
        member_index(ms.drop_last(), k)
    }
}

/// Sets member `k` to `y`: in place where `k` is already a key, else at the end.
pub open spec fn put_member(ms: Seq<(Seq<char>, DisplayModel)>, k: Seq<char>, y: DisplayModel) -> Seq<
    (Seq<char>, DisplayModel),
> {
    let i = member_index(ms, k);
    if i >= 0 {
        ms.update(i, (k, y))
    } else {
        ms.push((k, y))
    }
}

/// Members in order of first appearance; a repeated key keeps the value
/// that comes last.
pub open spec fn project_dict(es: Seq<(Seq<u8>, SValue)>) -> Option<Seq<(Seq<char>, DisplayModel)>>
    decreases es,
{
    if es.len() == 0 {
        Some(Seq::empty())
    } else {
        match project_dict(es.subrange(0, es.len() - 1)) {
            None => None,
            Some(ms) => match text_of(es[es.len() - 1].0) {
                None => None,
                Some(k) => match project(es[es.len() - 1].1) {
                    None => None,
                    Some(y) => Some(put_member(ms, k, y)),
                },
            },
        }
    }
}

fn text(b: &Vec<u8>) -> (r: Result<String, DisplayError>)
    ensures
        match r {
            Ok(t) => text_of(b@) == Some(t@),
            Err(_) => text_of(b@) is None,
        },
{
    match utf8_text(copy_bytes(b.as_slice())) {
        Some(t) => Ok(t),
        None => Err(DisplayError::InvalidText),
    }
}

impl DisplayValue {
    /// The display form of `v`.
    pub fn from_value(v: &Value) -> (r: Result<DisplayValue, DisplayError>)
        ensures
            match r {
                Ok(d) => project(v@) == Some(d@),
                Err(_) => project(v@) is None,
            },
        decreases v,
    {
        match v {
            Value::Integer(i) => Ok(DisplayValue::Number(*i)),
            Value::Bytes(b) => match text(b) {
                Ok(t) => Ok(DisplayValue::Text(t)),
                Err(e) => Err(e),
            },
            Value::List(xs) => {
                let ghost ms = models(xs@);
                proof {
                    lemma_models(xs@);
                }
                let mut out: Vec<DisplayValue> = Vec::new();
                let mut i: usize = 0;
                assert(ms.subrange(0, 0) =~= Seq::<SValue>::empty());
                while i < xs.len()
                    invariant
                        v is List,
                        *xs == v->List_0,
                        ms == models(xs@),
                        ms.len() == xs.len(),
                        forall|k: int| 0 <= k < xs.len() ==> #[trigger] ms[k] == value_model(xs@[k]),
                        i <= xs.len(),
                        project_list(ms.subrange(0, i as int)) == Some(display_models(out@)),
                    decreases xs.len() - i,
                {
                    proof {
                        vstd::std_specs::vec::axiom_vec_index_decreases(*xs, i as int);
                        assert(decreases_to!(*v => v->List_0));
                    }
                    let d = match DisplayValue::from_value(&xs[i]) {
                        Ok(d) => d,
                        Err(e) => {
                            proof {
                                assert(ms.subrange(0, i + 1).subrange(0, i as int) =~= ms.subrange(0, i as int));
                                assert(ms.subrange(0, i + 1)[i as int] == ms[i as int]);
                                assert(project(ms[i as int]) is None);
                                assert(project_list(ms.subrange(0, i + 1)) is None);
                                lemma_project_list_fails(ms, i as int + 1, xs.len() as int);
                                assert(ms.subrange(0, xs.len() as int) =~= ms);
                                assert(v@ == SValue::List(ms));
                            }
                            return Err(e);
                        },
                    };
                    let ghost old_out = out@;
                    out.push(d);
                    assert(out@.subrange(0, out@.len() - 1) =~= old_out);
                    assert(ms.subrange(0, i + 1).subrange(0, i as int) =~= ms.subrange(0, i as int));
                    i = i + 1;
                }
                assert(ms.subrange(0, i as int) =~= ms);
                Ok(DisplayValue::Array(out))
            },
            Value::Dict(es) => {
                let ghost ms = entry_models(es@);
                proof {
                    lemma_entry_models(es@);
                }
                let mut out: Vec<(String, DisplayValue)> = Vec::new();
                let mut i: usize = 0;
                assert(ms.subrange(0, 0) =~= Seq::<(Seq<u8>, SValue)>::empty());
                while i < es.len()
                    invariant
                        v is Dict,
                        *es == v->Dict_0,
                        ms == entry_models(es@),
                        ms.len() == es.len(),
                        forall|k: int|
                            0 <= k < es.len() ==> #[trigger] ms[k] == (es@[k].0@, value_model(es@[k].1)),
                        i <= es.len(),
                        project_dict(ms.subrange(0, i as int)) == Some(member_models(out@)),
                    decreases es.len() - i,
                {
                    proof {
                        vstd::std_specs::vec::axiom_vec_index_decreases(*es, i as int);
                        assert(decreases_to!(*v => v->Dict_0));
                        assert(decreases_to!(es[i as int] => es[i as int].1));
                        assert(ms.subrange(0, i + 1).subrange(0, i as int) =~= ms.subrange(0, i as int));
                    }
                    let entry = &es[i];
                    let k = match text(&entry.0) {
                        Ok(k) => k,
                        Err(e) => {
                            proof {
                                assert(ms.subrange(0, i + 1)[i as int] == ms[i as int]);
                                assert(project_dict(ms.subrange(0, i + 1)) is None);
                                lemma_project_dict_fails(ms, i as int + 1, es.len() as int);
                                assert(ms.subrange(0, es.len() as int) =~= ms);
                                assert(v@ == SValue::Dict(ms));
                            }
                            return Err(e);
                        },
                    };
                    let d = match DisplayValue::from_value(&entry.1) {
                        Ok(d) => d,
                        Err(e) => {
                            proof {
                                assert(ms.subrange(0, i + 1)[i as int] == ms[i as int]);
                                assert(project_dict(ms.subrange(0, i + 1)) is None);
                                lemma_project_dict_fails(ms, i as int + 1, es.len() as int);
                                assert(ms.subrange(0, es.len() as int) =~= ms);
                                assert(v@ == SValue::Dict(ms));
                            }
                            return Err(e);
                        },
                    };
                    let ghost old_out = out@;
                    let ghost km = k@;
                    let ghost dm = d@;
                    proof {
                        lemma_member_models(old_out);
                    }
                    match find_member(&out, &k) {
                        Some(j) => {
                            out[j] = (k, d);
                            proof {
                                lemma_member_models(out@);
                                assert(member_models(out@) =~= member_models(old_out).update(j as int, (km, dm)));
                            }
                        },
                        None => {
                            out.push((k, d));
                            assert(out@.subrange(0, out@.len() - 1) =~= old_out);
                        },
                    }
                    i = i + 1;
                }
                assert(ms.subrange(0, i as int) =~= ms);
                Ok(DisplayValue::Object(out))
            },
        }
    }
}

/// Why bencode input has no display form.
#[derive(Debug, Clone, Copy, PartialEq, Eq, Structural)]
pub enum ShowError {
    Decode(DecodeError),
    InvalidText,
}

/// Decodes the value at the front of `input` and projects it for display.
pub fn decode_bencoded_value(input: &[u8]) -> (r: Result<DisplayValue, ShowError>)
    ensures
        match r {
            Ok(d) => decode_spec(input@) matches Ok((v, _)) && project(v) == Some(d@),
            Err(ShowError::Decode(e)) => decode_spec(input@) == Err::<(SValue, int), DecodeError>(e),
            Err(ShowError::InvalidText) => decode_spec(input@) matches Ok((v, _)) && project(v) is None,
        },
{
    match decode(input) {
        Err(e) => Err(ShowError::Decode(e)),
        Ok((v, _)) => match DisplayValue::from_value(&v) {
            Ok(d) => Ok(d),
            Err(_) => Err(ShowError::InvalidText),
        },
    }
}

pub proof fn lemma_member_models(es: Seq<(String, DisplayValue)>)
    ensures
        member_models(es).len() == es.len(),
        forall|i: int|
            0 <= i < es.len() ==> #[trigger] member_models(es)[i] == (es[i].0@, display_model(es[i].1)),
    decreases es.len(),
{
    if es.len() > 0 {
        lemma_member_models(es.subrange(0, es.len() - 1));
    }
}

fn find_member(out: &Vec<(String, DisplayValue)>, k: &String) -> (r: Option<usize>)
    ensures
        match r {
            Some(j) => j < out@.len() && j as int == member_index(member_models(out@), k@),
            None => member_index(member_models(out@), k@) == -1,
        },
{
    let ghost ms = member_models(out@);
    proof {
        lemma_member_models(out@);
        assert(ms.subrange(0, ms.len() as int) =~= ms);
    }
    let mut j: usize = out.len();
    while j > 0
        invariant
            j <= out@.len(),
            ms == member_models(out@),
            ms.len() == out@.len(),
            forall|x: int| 0 <= x < out@.len() ==> #[trigger] ms[x] == (out@[x].0@, display_model(out@[x].1)),
            member_index(ms, k@) == member_index(ms.subrange(0, j as int), k@),
        decreases j,
    {
        let ghost pre = ms.subrange(0, j as int);
        assert(pre.drop_last() =~= ms.subrange(0, j - 1));
        assert(pre.last() == ms[j - 1]);
        if out[j - 1].0 == *k {
            return Some(j - 1);
        }
        j = j - 1;
    }
    None
}

proof fn lemma_project_list_fails(xs: Seq<SValue>, i: int, n: int)
    requires
        0 < i <= n <= xs.len(),
        project_list(xs.subrange(0, i)) is None,
    ensures
        project_list(xs.subrange(0, n)) is None,
    decreases n - i,
{
    if n > i {
        lemma_project_list_fails(xs, i, n - 1);
        assert(xs.subrange(0, n).subrange(0, n - 1) =~= xs.subrange(0, n - 1));
    } else {
        assert(xs.subrange(0, n) =~= xs.subrange(0, i));
    }
    if n == xs.len() {
        assert(xs.subrange(0, n) =~= xs);
    }
}

proof fn lemma_project_dict_fails(es: Seq<(Seq<u8>, SValue)>, i: int, n: int)
    requires
        0 < i <= n <= es.len(),
        project_dict(es.subrange(0, i)) is None,
    ensures
        project_dict(es.subrange(0, n)) is None,
    decreases n - i,
{
    if n > i {
        lemma_project_dict_fails(es, i, n - 1);
        assert(es.subrange(0, n).subrange(0, n - 1) =~= es.subrange(0, n - 1));
    } else {
        assert(es.subrange(0, n) =~= es.subrange(0, i));
    }
    if n == es.len() {
        assert(es.subrange(0, n) =~= es);
    }
}

} // verus!
