//! Decoding: reading values back out of a byte view.
//!
//! Decoding is a pure function of the bytes alone: the spec function
//! [`dec`] reads a value of a formula at a position in a view,
//! following references into sub-views, and the executable
//! [`Deserializer`] is verified to return exactly its result.  No
//! decode ever reads outside the view: every reference is
//! bounds-checked before it is followed.

use vstd::prelude::*;

use crate::formula::Formula;
use crate::formula::is_exact;
use crate::formula::is_heapless;
use crate::formula::is_sized;
use crate::formula::max_stack;
use crate::formula::wf;
use crate::formula::wf_all;
use crate::value::Val;
use crate::value::Value;
use crate::value::lemma_wf_all_index;
use crate::value::val_of;
use crate::value::views_of;
use crate::word::le_value;
use crate::word::read_word;
use crate::word::valid_width;
use vstd::slice::slice_subrange;
use vstd::slice::slice_to_vec;
use vstd::utf8::valid_utf8;

verus! {

broadcast use vstd::std_specs::vec::group_vec_axioms;

/// Why a decode failed.  Decoding never panics on malformed input: it
/// reports one of these instead.
#[derive(Debug, Clone, Copy, PartialEq, Eq)]
pub enum DeserializeError {
    /// A reference or a fixed-size read would reach past the end of
    /// the view.
    OutOfBounds,
    /// An enum tag matched no declared variant.
    BadDiscriminant,
    /// Text content was not valid UTF-8.
    BadUtf8,
    /// A reference's stored length contradicts the fixed footprint its
    /// formula declares.
    SizeMismatch,
}

/// The result of decoding `f` at `pos` in `data`: the value and the
/// position just past its stack bytes, or the error.
pub open spec fn dec(f: Formula, w: nat, data: Seq<u8>, pos: int) -> Result<
    (Val, int),
    DeserializeError,
>
    decreases f, 0int, 0int,
{
    let len = data.len() as int;
    match f {
        Formula::Bool => if pos + 1 <= len {
            Ok((Val::Bool(data[pos] != 0), pos + 1))
        } else {
            Err(DeserializeError::OutOfBounds)
        },
        Formula::U8 => if pos + 1 <= len {
            Ok((Val::U8(data[pos]), pos + 1))
        } else {
            Err(DeserializeError::OutOfBounds)
        },
        Formula::U16 => if pos + 2 <= len {
            Ok((Val::U16(le_value(data.subrange(pos, pos + 2)) as u16), pos + 2))
        } else {
            Err(DeserializeError::OutOfBounds)
        },
        Formula::U32 => if pos + 4 <= len {
            Ok((Val::U32(le_value(data.subrange(pos, pos + 4)) as u32), pos + 4))
        } else {
            Err(DeserializeError::OutOfBounds)
        },
        Formula::U64 => if pos + 8 <= len {
            Ok((Val::U64(le_value(data.subrange(pos, pos + 8)) as u64), pos + 8))
        } else {
            Err(DeserializeError::OutOfBounds)
        },
        Formula::Tuple(fs) => match dec_fields(fs@, w, data, pos, 0) {
            Ok((vs, end)) => Ok((Val::Tuple(vs), end)),
            Err(e) => Err(e),
        },
        Formula::Array(g, n) => match dec_array(*g, w, data, pos, n as int) {
            Ok((vs, end)) => Ok((Val::List(vs), end)),
            Err(e) => Err(e),
        },
        Formula::Maybe(g) => if pos + 4 <= len {
            let d = le_value(data.subrange(pos, pos + 4));
            if d == 0 {
                Ok((Val::Nothing, pos + 4))
            } else if d == 1 {
                match dec(*g, w, data, pos + 4) {
                    Ok((x, end)) => Ok((Val::Just(Box::new(x)), end)),
                    Err(e) => Err(e),
                }
            } else {
                Err(DeserializeError::BadDiscriminant)
            }
        } else {
            Err(DeserializeError::OutOfBounds)
        },
        Formula::Union(fs) => if pos + 4 <= len {
            let d = le_value(data.subrange(pos, pos + 4));
            if d < fs@.len() {
                match dec(fs@[d as int], w, data, pos + 4) {
                    Ok((x, end)) => Ok((Val::Variant(d as u32, Box::new(x)), end)),
                    Err(e) => Err(e),
                }
            } else {
                Err(DeserializeError::BadDiscriminant)
            }
        } else {
            Err(DeserializeError::OutOfBounds)
        },
        Formula::RefTo(g) => if pos + 2 * w <= len {
            let o = le_value(data.subrange(pos, pos + w)) as int;
            let l = le_value(data.subrange(pos + w, pos + 2 * w)) as int;
            if pos + o + l <= len {
                if is_sized(*g) && is_exact(*g) && is_heapless(*g) && !(l == max_stack(*g, w)
                    && max_stack(*g, w) <= usize::MAX) {
                    Err(DeserializeError::SizeMismatch)
                } else {
                    match dec(*g, w, data.subrange(pos + o, pos + o + l), 0) {
                        Ok((x, end)) => Ok((x, pos + 2 * w)),
                        Err(e) => Err(e),
                    }
                }
            } else {
                Err(DeserializeError::OutOfBounds)
            }
        } else {
            Err(DeserializeError::OutOfBounds)
        },
        Formula::List(g) => if pos + 2 * w <= len {
            let o = le_value(data.subrange(pos, pos + w)) as int;
            let count = le_value(data.subrange(pos + w, pos + 2 * w)) as int;
            let m = max_stack(*g, w) as int;
            if pos + o + count * m <= len {
                match dec_elems(*g, w, data.subrange(pos + o, len), m, 0, count) {
                    Ok(vs) => Ok((Val::List(vs), pos + 2 * w)),
                    Err(e) => Err(e),
                }
            } else {
                Err(DeserializeError::OutOfBounds)
            }
        } else {
            Err(DeserializeError::OutOfBounds)
        },
        Formula::Text => if pos + 2 * w <= len {
            let o = le_value(data.subrange(pos, pos + w)) as int;
            let l = le_value(data.subrange(pos + w, pos + 2 * w)) as int;
            if pos + o + l <= len {
                let b = data.subrange(pos + o, pos + o + l);
                if valid_utf8(b) {
                    Ok((Val::Text(b), pos + 2 * w))
                } else {
                    Err(DeserializeError::BadUtf8)
                }
            } else {
                Err(DeserializeError::OutOfBounds)
            }
        } else {
            Err(DeserializeError::OutOfBounds)
        },
        Formula::Blob => if pos <= len {
            Ok((Val::Blob(data.subrange(pos, len)), len))
        } else {
            Err(DeserializeError::OutOfBounds)
        },
    }
}

/// Decodes the fields `fs[i..]` one after another from `pos`.
pub open spec fn dec_fields(fs: Seq<Formula>, w: nat, data: Seq<u8>, pos: int, i: int) -> Result<
    (Seq<Val>, int),
    DeserializeError,
>
    decreases fs, fs.len() - i, 1int,
{
    if i < 0 || i >= fs.len() {
        Ok((Seq::empty(), pos))
    } else {
        match dec(fs[i], w, data, pos) {
            Ok((x, p)) => match dec_fields(fs, w, data, p, i + 1) {
                Ok((rest, end)) => Ok((seq![x] + rest, end)),
                Err(e) => Err(e),
            },
            Err(e) => Err(e),
        }
    }
}

/// Decodes `k` more array elements one after another from `pos`.
pub open spec fn dec_array(g: Formula, w: nat, data: Seq<u8>, pos: int, k: int) -> Result<
    (Seq<Val>, int),
    DeserializeError,
>
    decreases g, k, 1int,
{
    if k <= 0 {
        Ok((Seq::empty(), pos))
    } else {
        match dec(g, w, data, pos) {
            Ok((x, p)) => match dec_array(g, w, data, p, k - 1) {
                Ok((rest, end)) => Ok((seq![x] + rest, end)),
                Err(e) => Err(e),
            },
            Err(e) => Err(e),
        }
    }
}

/// Decodes sequence elements `i..count`, each at its stride-`m` slot
/// from the start of the sequence's own sub-view.
pub open spec fn dec_elems(g: Formula, w: nat, sub: Seq<u8>, m: int, i: int, count: int) -> Result<
    Seq<Val>,
    DeserializeError,
>
    decreases g, count - i, 1int,
{
    if i >= count {
        Ok(Seq::empty())
    } else {
        match dec(g, w, sub, i * m) {
            Ok((x, _)) => match dec_elems(g, w, sub, m, i + 1, count) {
                Ok(rest) => Ok(seq![x] + rest),
                Err(e) => Err(e),
            },
            Err(e) => Err(e),
        }
    }
}

/// The values of the longest run of sequence elements from `i` that
/// decode successfully, stopping at the first failing element: what an
/// in-place refill has produced when element decoding fails.
pub open spec fn dec_elems_prefix(
    g: Formula,
    w: nat,
    sub: Seq<u8>,
    m: int,
    i: int,
    count: int,
) -> Seq<Val>
    decreases g, count - i, 1int,
{
    if i >= count {
        Seq::empty()
    } else {
        match dec(g, w, sub, i * m) {
            Ok((x, _)) => seq![x] + dec_elems_prefix(g, w, sub, m, i + 1, count),
            Err(_) => Seq::empty(),
        }
    }
}

/// The successfully decoded element prefix of the sequence whose
/// reference pair sits at `pos`: empty when the pair itself cannot be
/// read or its packed slots reach past the view.
pub open spec fn list_prefix_at(g: Formula, w: nat, data: Seq<u8>, pos: int) -> Seq<Val> {
    let len = data.len() as int;
    let o = word_at(data, pos, w);
    let c = word_at(data, pos + w, w);
    let m = max_stack(g, w) as int;
    if pos + 2 * w <= len && pos + o + c * m <= len {
        dec_elems_prefix(g, w, data.subrange(pos + o, len), m, 0, c)
    } else {
        Seq::empty()
    }
}

/// A successful decode lands inside the view: the cursor never moves
/// backward and never passes the end.
pub proof fn lemma_dec_in_bounds(f: Formula, w: nat, data: Seq<u8>, pos: int)
    requires
        0 <= pos <= data.len(),
        dec(f, w, data, pos) is Ok,
    ensures
        pos <= dec(f, w, data, pos)->Ok_0.1 <= data.len(),
    decreases f, 0int, 0int,
{
    match f {
        Formula::Tuple(fs) => {
            lemma_dec_fields_in_bounds(fs@, w, data, pos, 0);
        },
        Formula::Array(g, n) => {
            lemma_dec_array_in_bounds(*g, w, data, pos, n as int);
        },
        Formula::Maybe(g) => {
            let d = le_value(data.subrange(pos, pos + 4));
            if d == 1 {
                lemma_dec_in_bounds(*g, w, data, pos + 4);
            }
        },
        Formula::Union(fs) => {
            let d = le_value(data.subrange(pos, pos + 4));
            if d < fs@.len() {
                lemma_dec_in_bounds(fs@[d as int], w, data, pos + 4);
            }
        },
        _ => {},
    }
}

pub proof fn lemma_dec_fields_in_bounds(fs: Seq<Formula>, w: nat, data: Seq<u8>, pos: int, i: int)
    requires
        0 <= pos <= data.len(),
        dec_fields(fs, w, data, pos, i) is Ok,
    ensures
        pos <= dec_fields(fs, w, data, pos, i)->Ok_0.1 <= data.len(),
    decreases fs, fs.len() - i, 1int,
{
    if 0 <= i < fs.len() {
        match dec(fs[i], w, data, pos) {
            Ok((x, p)) => {
                lemma_dec_in_bounds(fs[i], w, data, pos);
                lemma_dec_fields_in_bounds(fs, w, data, p, i + 1);
            },
            Err(_) => {},
        }
    }
}

pub proof fn lemma_dec_array_in_bounds(g: Formula, w: nat, data: Seq<u8>, pos: int, k: int)
    requires
        0 <= pos <= data.len(),
        dec_array(g, w, data, pos, k) is Ok,
    ensures
        pos <= dec_array(g, w, data, pos, k)->Ok_0.1 <= data.len(),
    decreases g, k, 1int,
{
    if k > 0 {
        match dec(g, w, data, pos) {
            Ok((x, p)) => {
                lemma_dec_in_bounds(g, w, data, pos);
                lemma_dec_array_in_bounds(g, w, data, p, k - 1);
            },
            Err(_) => {},
        }
    }
}


/// Decodes `f` at `pos` in `data`, returning the value and the
/// position just past its stack bytes: the executable twin of [`dec`].
#[verifier::rlimit(60)]
pub fn decode_at(f: &Formula, w: usize, data: &[u8], pos: usize) -> (r: Result<
    (Value, usize),
    DeserializeError,
>)
    requires
        valid_width(w as nat),
        wf(*f, w as nat),
        pos <= data@.len(),
    ensures
        match r {
            Ok(p) => dec(*f, w as nat, data@, pos as int) == Ok::<_, DeserializeError>(
                (p.0@, p.1 as int),
            ),
            Err(e) => dec(*f, w as nat, data@, pos as int) == Err::<(Val, int), _>(e),
        },
    decreases *f, 0int,
{
    let len = data.len();
    let ghost wn = w as nat;
    match f {
        Formula::Bool => {
            if len - pos < 1 {
                return Err(DeserializeError::OutOfBounds);
            }
            Ok((Value::Bool(data[pos] != 0), pos + 1))
        },
        Formula::U8 => {
            if len - pos < 1 {
                return Err(DeserializeError::OutOfBounds);
            }
            Ok((Value::U8(data[pos]), pos + 1))
        },
        Formula::U16 => {
            if len - pos < 2 {
                return Err(DeserializeError::OutOfBounds);
            }
            let x = read_word(data, pos, 2);
            proof {
                crate::word::lemma_pow256_values();
            }
            Ok((Value::U16(x as u16), pos + 2))
        },
        Formula::U32 => {
            if len - pos < 4 {
                return Err(DeserializeError::OutOfBounds);
            }
            let x = read_word(data, pos, 4);
            proof {
                crate::word::lemma_pow256_values();
            }
            Ok((Value::U32(x as u32), pos + 4))
        },
        Formula::U64 => {
            if len - pos < 8 {
                return Err(DeserializeError::OutOfBounds);
            }
            let x = read_word(data, pos, 8);
            Ok((Value::U64(x), pos + 8))
        },
        Formula::Tuple(fs) => {
            match decode_fields_at(fs, w, data, pos) {
                Ok(p) => {
                    let (vals, cur) = p;
                    proof {
                        assert(val_of(Value::Tuple(vals)) == Val::Tuple(views_of(vals@))) by {
                            assert(val_of(Value::Tuple(vals))->Tuple_0 =~= views_of(vals@));
                        };
                    }
                    Ok((Value::Tuple(vals), cur))
                },
                Err(e) => Err(e),
            }
        },
        Formula::Array(g, n) => {
            match decode_array_at(g, *n, w, data, pos) {
                Ok(p) => {
                    let (vals, cur) = p;
                    proof {
                        assert(val_of(Value::List(vals)) == Val::List(views_of(vals@))) by {
                            assert(val_of(Value::List(vals))->List_0 =~= views_of(vals@));
                        };
                    }
                    Ok((Value::List(vals), cur))
                },
                Err(e) => Err(e),
            }
        },
        Formula::Maybe(g) => {
            if len - pos < 4 {
                return Err(DeserializeError::OutOfBounds);
            }
            let d = read_word(data, pos, 4);
            if d == 0 {
                Ok((Value::Nothing, pos + 4))
            } else if d == 1 {
                match decode_at(g, w, data, pos + 4) {
                    Ok(p) => {
                        let (x, np) = p;
                        Ok((Value::Just(Box::new(x)), np))
                    },
                    Err(e) => Err(e),
                }
            } else {
                Err(DeserializeError::BadDiscriminant)
            }
        },
        Formula::Union(fs) => {
            if len - pos < 4 {
                return Err(DeserializeError::OutOfBounds);
            }
            let d = read_word(data, pos, 4);
            if d < fs.len() as u64 {
                let idx = d as usize;
                proof {
                    lemma_wf_all_index(fs@, wn, 0, d as int);
                }
                match decode_at(&fs[idx], w, data, pos + 4) {
                    Ok(p) => {
                        let (x, np) = p;
                        Ok((Value::Variant(d as u32, Box::new(x)), np))
                    },
                    Err(e) => Err(e),
                }
            } else {
                Err(DeserializeError::BadDiscriminant)
            }
        },
        Formula::RefTo(g) => {
            if len - pos < 2 * w {
                return Err(DeserializeError::OutOfBounds);
            }
            let o = read_word(data, pos, w);
            let l = read_word(data, pos + w, w);
            if (pos as u128) + (o as u128) + (l as u128) > (len as u128) {
                return Err(DeserializeError::OutOfBounds);
            }
            let start = pos + (o as usize);
            let stop = start + (l as usize);
            if g.exact_size() && g.heapless() && !matches!(**g, Formula::Blob) {
                let mismatch: bool = match g.max_stack_size(w) {
                    Some(m) => (l as u64) != (m as u64),
                    None => true,
                };
                if mismatch {
                    return Err(DeserializeError::SizeMismatch);
                }
            }
            let payload = slice_subrange(data, start, stop);
            match decode_at(g, w, payload, 0) {
                Ok(p) => {
                    let (x, _) = p;
                    Ok((x, pos + 2 * w))
                },
                Err(e) => Err(e),
            }
        },
        Formula::List(g) => {
            if len - pos < 2 * w {
                return Err(DeserializeError::OutOfBounds);
            }
            let o = read_word(data, pos, w);
            let count64 = read_word(data, pos + w, w);
            let msize = g.max_stack_size(w);
            proof {
                assert(msize.is_some());
            }
            let m = msize.unwrap();
            proof {
                assert((count64 as u128) * (m as u128) == (count64 as int) * (m as int)
                    && (count64 as int) * (m as int) <= u128::MAX) by (nonlinear_arith)
                    requires
                        count64 <= u64::MAX,
                        m <= u64::MAX,
                ;
            }
            let prod: u128 = (count64 as u128) * (m as u128);
            if prod > (len as u128) || (pos as u128) + (o as u128) + prod > (len as u128) {
                return Err(DeserializeError::OutOfBounds);
            }
            proof {
                assert(count64 as int <= (count64 as int) * (m as int)) by (nonlinear_arith)
                    requires
                        m >= 1,
                        count64 >= 0,
                ;
            }
            let count = count64 as usize;
            let start = pos + (o as usize);
            let sub = slice_subrange(data, start, len);
            let mut vals: Vec<Value> = Vec::new();
            match decode_list_elems(g, w, sub, m, count, &mut vals) {
                Ok(()) => {
                    proof {
                        assert(val_of(Value::List(vals)) == Val::List(views_of(vals@))) by {
                            assert(val_of(Value::List(vals))->List_0 =~= views_of(vals@));
                        };
                    }
                    Ok((Value::List(vals), pos + 2 * w))
                },
                Err(e) => Err(e),
            }
        },
        Formula::Text => {
            if len - pos < 2 * w {
                return Err(DeserializeError::OutOfBounds);
            }
            let o = read_word(data, pos, w);
            let l = read_word(data, pos + w, w);
            if (pos as u128) + (o as u128) + (l as u128) > (len as u128) {
                return Err(DeserializeError::OutOfBounds);
            }
            let start = pos + (o as usize);
            let stop = start + (l as usize);
            let bytes = slice_subrange(data, start, stop);
            if !crate::utf8::is_utf8(bytes) {
                return Err(DeserializeError::BadUtf8);
            }
            Ok((Value::Text(slice_to_vec(bytes)), pos + 2 * w))
        },
        Formula::Blob => {
            let rest = slice_subrange(data, pos, len);
            Ok((Value::Blob(slice_to_vec(rest)), len))
        },
    }
}

/// Decodes a tuple's fields one after another.
#[verifier::loop_isolation(false)]
fn decode_fields_at(fs: &Vec<Formula>, w: usize, data: &[u8], pos: usize) -> (r: Result<
    (Vec<Value>, usize),
    DeserializeError,
>)
    requires
        valid_width(w as nat),
        wf_all(fs@, w as nat, 0),
        pos <= data@.len(),
    ensures
        match r {
            Ok(p) => dec_fields(fs@, w as nat, data@, pos as int, 0) == Ok::<
                _,
                DeserializeError,
            >((views_of(p.0@), p.1 as int)),
            Err(e) => dec_fields(fs@, w as nat, data@, pos as int, 0) == Err::<
                (Seq<Val>, int),
                _,
            >(e),
        },
    decreases fs@, 0int,
{
    let ghost wn = w as nat;
    let ghost d0 = dec_fields(fs@, wn, data@, pos as int, 0);
    let mut vals: Vec<Value> = Vec::new();
    let mut cur: usize = pos;
    let mut i: usize = 0;
    while i < fs.len()
        invariant
            i <= fs.len(),
            cur <= data@.len(),
            wf_all(fs@, wn, i as int),
            match dec_fields(fs@, wn, data@, cur as int, i as int) {
                Ok(rem) => d0 == Ok::<(Seq<Val>, int), DeserializeError>(
                    (views_of(vals@) + rem.0, rem.1),
                ),
                Err(e) => d0 == Err::<(Seq<Val>, int), DeserializeError>(e),
            },
        decreases fs.len() - i,
    {
        match decode_at(&fs[i], w, data, cur) {
            Ok(p) => {
                let (x, np) = p;
                proof {
                    lemma_dec_in_bounds(fs@[i as int], wn, data@, cur as int);
                    let rest = dec_fields(fs@, wn, data@, np as int, i + 1);
                    assert(views_of(vals@.push(x)) =~= views_of(vals@) + seq![x@]);
                    match rest {
                        Ok(tl) => {
                            assert((views_of(vals@) + seq![x@]) + tl.0 =~= views_of(vals@) + (
                            seq![x@] + tl.0));
                        },
                        Err(_) => {},
                    }
                }
                vals.push(x);
                cur = np;
            },
            Err(e) => {
                return Err(e);
            },
        }
        i = i + 1;
    }
    proof {
        assert(views_of(vals@) + Seq::<Val>::empty() =~= views_of(vals@));
    }
    Ok((vals, cur))
}

/// Decodes `n` array elements one after another.
#[verifier::loop_isolation(false)]
fn decode_array_at(g: &Formula, n: usize, w: usize, data: &[u8], pos: usize) -> (r: Result<
    (Vec<Value>, usize),
    DeserializeError,
>)
    requires
        valid_width(w as nat),
        wf(*g, w as nat),
        pos <= data@.len(),
    ensures
        match r {
            Ok(p) => dec_array(*g, w as nat, data@, pos as int, n as int) == Ok::<
                _,
                DeserializeError,
            >((views_of(p.0@), p.1 as int)),
            Err(e) => dec_array(*g, w as nat, data@, pos as int, n as int) == Err::<
                (Seq<Val>, int),
                _,
            >(e),
        },
    decreases *g, 1int,
{
    let ghost wn = w as nat;
    let ghost d0 = dec_array(*g, wn, data@, pos as int, n as int);
    let mut vals: Vec<Value> = Vec::new();
    let mut cur: usize = pos;
    let mut i: usize = 0;
    while i < n
        invariant
            i <= n,
            cur <= data@.len(),
            wf(*g, wn),
            match dec_array(*g, wn, data@, cur as int, n - i) {
                Ok(rem) => d0 == Ok::<(Seq<Val>, int), DeserializeError>(
                    (views_of(vals@) + rem.0, rem.1),
                ),
                Err(e) => d0 == Err::<(Seq<Val>, int), DeserializeError>(e),
            },
        decreases n - i,
    {
        match decode_at(g, w, data, cur) {
            Ok(p) => {
                let (x, np) = p;
                proof {
                    lemma_dec_in_bounds(*g, wn, data@, cur as int);
                    let rest = dec_array(*g, wn, data@, np as int, n - i - 1);
                    assert(views_of(vals@.push(x)) =~= views_of(vals@) + seq![x@]);
                    match rest {
                        Ok(tl) => {
                            assert((views_of(vals@) + seq![x@]) + tl.0 =~= views_of(vals@) + (
                            seq![x@] + tl.0));
                        },
                        Err(_) => {},
                    }
                }
                vals.push(x);
                cur = np;
            },
            Err(e) => {
                return Err(e);
            },
        }
        i = i + 1;
    }
    proof {
        assert(views_of(vals@) + Seq::<Val>::empty() =~= views_of(vals@));
    }
    Ok((vals, cur))
}

/// Decodes `count` sequence elements at stride `m` in their sub-view,
/// pushing them onto `vals`.
#[verifier::loop_isolation(false)]
fn decode_list_elems(
    g: &Formula,
    w: usize,
    sub: &[u8],
    m: usize,
    count: usize,
    vals: &mut Vec<Value>,
) -> (r: Result<(), DeserializeError>)
    requires
        valid_width(w as nat),
        wf(*g, w as nat),
        m >= 1,
        count * m <= sub@.len(),
        old(vals)@ == Seq::<Value>::empty(),
    ensures
        match r {
            Ok(()) => dec_elems(*g, w as nat, sub@, m as int, 0, count as int) == Ok::<
                _,
                DeserializeError,
            >(views_of(final(vals)@)),
            Err(e) => dec_elems(*g, w as nat, sub@, m as int, 0, count as int) == Err::<
                Seq<Val>,
                _,
            >(e) && views_of(final(vals)@) == dec_elems_prefix(
                *g,
                w as nat,
                sub@,
                m as int,
                0,
                count as int,
            ),
        },
    decreases *g, 1int,
{
    let ghost wn = w as nat;
    let slen: usize = sub.len();
    let ghost d0 = dec_elems(*g, wn, sub@, m as int, 0, count as int);
    let mut i: usize = 0;
    while i < count
        invariant
            i <= count,
            count * m <= sub@.len(),
            sub@.len() == slen,
            wf(*g, wn),
            match dec_elems(*g, wn, sub@, m as int, i as int, count as int) {
                Ok(rem) => d0 == Ok::<Seq<Val>, DeserializeError>(views_of(vals@) + rem),
                Err(e) => d0 == Err::<Seq<Val>, DeserializeError>(e),
            },
            dec_elems_prefix(*g, wn, sub@, m as int, 0, count as int) == views_of(vals@)
                + dec_elems_prefix(*g, wn, sub@, m as int, i as int, count as int),
        decreases count - i,
    {
        proof {
            assert(i * m + m <= count * m && 0 <= i * m) by (nonlinear_arith)
                requires
                    0 <= i < count,
                    m >= 1,
                    count * m <= sub@.len(),
            ;
        }
        match decode_at(g, w, sub, i * m) {
            Ok(p) => {
                let (x, _) = p;
                proof {
                    let rest = dec_elems(*g, wn, sub@, m as int, i + 1, count as int);
                    assert(views_of(vals@.push(x)) =~= views_of(vals@) + seq![x@]);
                    match rest {
                        Ok(tl) => {
                            assert((views_of(vals@) + seq![x@]) + tl =~= views_of(vals@) + (
                            seq![x@] + tl));
                        },
                        Err(_) => {},
                    }
                    let ptail = dec_elems_prefix(*g, wn, sub@, m as int, i + 1, count as int);
                    assert((views_of(vals@) + seq![x@]) + ptail =~= views_of(vals@) + (seq![x@]
                        + ptail));
                }
                vals.push(x);
            },
            Err(e) => {
                proof {
                    assert(views_of(vals@) + Seq::<Val>::empty() =~= views_of(vals@));
                }
                return Err(e);
            },
        }
        i = i + 1;
    }
    proof {
        assert(views_of(vals@) + Seq::<Val>::empty() =~= views_of(vals@));
    }
    Ok(())
}


/// Validates and advances past a value of `f` at `pos` without
/// materializing it: it consumes exactly the bytes a full decode
/// would, and fails exactly when and how a full decode would fail.
#[verifier::rlimit(60)]
pub fn skip_at(f: &Formula, w: usize, data: &[u8], pos: usize) -> (r: Result<
    usize,
    DeserializeError,
>)
    requires
        valid_width(w as nat),
        wf(*f, w as nat),
        pos <= data@.len(),
    ensures
        match dec(*f, w as nat, data@, pos as int) {
            Ok(q) => r == Ok::<usize, DeserializeError>(q.1 as usize),
            Err(e) => r == Err::<usize, DeserializeError>(e),
        },
    decreases *f, 0int,
{
    let len = data.len();
    let ghost wn = w as nat;
    proof {
        if dec(*f, wn, data@, pos as int) is Ok {
            lemma_dec_in_bounds(*f, wn, data@, pos as int);
        }
    }
    match f {
        Formula::Bool => {
            if len - pos < 1 {
                return Err(DeserializeError::OutOfBounds);
            }
            Ok(pos + 1)
        },
        Formula::U8 => {
            if len - pos < 1 {
                return Err(DeserializeError::OutOfBounds);
            }
            Ok(pos + 1)
        },
        Formula::U16 => {
            if len - pos < 2 {
                return Err(DeserializeError::OutOfBounds);
            }
            Ok(pos + 2)
        },
        Formula::U32 => {
            if len - pos < 4 {
                return Err(DeserializeError::OutOfBounds);
            }
            Ok(pos + 4)
        },
        Formula::U64 => {
            if len - pos < 8 {
                return Err(DeserializeError::OutOfBounds);
            }
            Ok(pos + 8)
        },
        Formula::Tuple(fs) => skip_fields_at(fs, w, data, pos),
        Formula::Array(g, n) => skip_array_at(g, *n, w, data, pos),
        Formula::Maybe(g) => {
            if len - pos < 4 {
                return Err(DeserializeError::OutOfBounds);
            }
            let d = read_word(data, pos, 4);
            if d == 0 {
                Ok(pos + 4)
            } else if d == 1 {
                skip_at(g, w, data, pos + 4)
            } else {
                Err(DeserializeError::BadDiscriminant)
            }
        },
        Formula::Union(fs) => {
            if len - pos < 4 {
                return Err(DeserializeError::OutOfBounds);
            }
            let d = read_word(data, pos, 4);
            if d < fs.len() as u64 {
                let idx = d as usize;
                proof {
                    lemma_wf_all_index(fs@, wn, 0, d as int);
                }
                skip_at(&fs[idx], w, data, pos + 4)
            } else {
                Err(DeserializeError::BadDiscriminant)
            }
        },
        Formula::RefTo(g) => {
            if len - pos < 2 * w {
                return Err(DeserializeError::OutOfBounds);
            }
            let o = read_word(data, pos, w);
            let l = read_word(data, pos + w, w);
            if (pos as u128) + (o as u128) + (l as u128) > (len as u128) {
                return Err(DeserializeError::OutOfBounds);
            }
            let start = pos + (o as usize);
            let stop = start + (l as usize);
            if g.exact_size() && g.heapless() && !matches!(**g, Formula::Blob) {
                let mismatch: bool = match g.max_stack_size(w) {
                    Some(m) => (l as u64) != (m as u64),
                    None => true,
                };
                if mismatch {
                    return Err(DeserializeError::SizeMismatch);
                }
            }
            let payload = slice_subrange(data, start, stop);
            match skip_at(g, w, payload, 0) {
                Ok(_) => Ok(pos + 2 * w),
                Err(e) => Err(e),
            }
        },
        Formula::List(g) => {
            if len - pos < 2 * w {
                return Err(DeserializeError::OutOfBounds);
            }
            let o = read_word(data, pos, w);
            let count64 = read_word(data, pos + w, w);
            let msize = g.max_stack_size(w);
            proof {
                assert(msize.is_some());
            }
            let m = msize.unwrap();
            proof {
                assert((count64 as u128) * (m as u128) == (count64 as int) * (m as int)
                    && (count64 as int) * (m as int) <= u128::MAX) by (nonlinear_arith)
                    requires
                        count64 <= u64::MAX,
                        m <= u64::MAX,
                ;
            }
            let prod: u128 = (count64 as u128) * (m as u128);
            if prod > (len as u128) || (pos as u128) + (o as u128) + prod > (len as u128) {
                return Err(DeserializeError::OutOfBounds);
            }
            proof {
                assert(count64 as int <= (count64 as int) * (m as int)) by (nonlinear_arith)
                    requires
                        m >= 1,
                        count64 >= 0,
                ;
            }
            let count = count64 as usize;
            let start = pos + (o as usize);
            let sub = slice_subrange(data, start, len);
            match skip_list_elems(g, w, sub, m, count) {
                Ok(()) => Ok(pos + 2 * w),
                Err(e) => Err(e),
            }
        },
        Formula::Text => {
            if len - pos < 2 * w {
                return Err(DeserializeError::OutOfBounds);
            }
            let o = read_word(data, pos, w);
            let l = read_word(data, pos + w, w);
            if (pos as u128) + (o as u128) + (l as u128) > (len as u128) {
                return Err(DeserializeError::OutOfBounds);
            }
            let start = pos + (o as usize);
            let stop = start + (l as usize);
            let bytes = slice_subrange(data, start, stop);
            if !crate::utf8::is_utf8(bytes) {
                return Err(DeserializeError::BadUtf8);
            }
            Ok(pos + 2 * w)
        },
        Formula::Blob => Ok(len),
    }
}

/// Skips a tuple's fields one after another.
#[verifier::loop_isolation(false)]
fn skip_fields_at(fs: &Vec<Formula>, w: usize, data: &[u8], pos: usize) -> (r: Result<
    usize,
    DeserializeError,
>)
    requires
        valid_width(w as nat),
        wf_all(fs@, w as nat, 0),
        pos <= data@.len(),
    ensures
        match dec_fields(fs@, w as nat, data@, pos as int, 0) {
            Ok(q) => r == Ok::<usize, DeserializeError>(q.1 as usize),
            Err(e) => r == Err::<usize, DeserializeError>(e),
        },
    decreases fs@, 0int,
{
    let ghost wn = w as nat;
    let dlen: usize = data.len();
    let ghost d0 = dec_fields(fs@, wn, data@, pos as int, 0);
    let mut cur: usize = pos;
    let mut i: usize = 0;
    while i < fs.len()
        invariant
            i <= fs.len(),
            cur <= data@.len(),
            data@.len() == dlen,
            wf_all(fs@, wn, i as int),
            match dec_fields(fs@, wn, data@, cur as int, i as int) {
                Ok(rem) => d0 is Ok && d0->Ok_0.1 == rem.1,
                Err(e) => d0 == Err::<(Seq<Val>, int), DeserializeError>(e),
            },
        decreases fs.len() - i,
    {
        proof {
            if dec(fs@[i as int], wn, data@, cur as int) is Ok {
                lemma_dec_in_bounds(fs@[i as int], wn, data@, cur as int);
            }
        }
        match skip_at(&fs[i], w, data, cur) {
            Ok(np) => {
                proof {
                    let di = dec(fs@[i as int], wn, data@, cur as int);
                    assert(di is Ok);
                    assert(di->Ok_0.1 == np as int);
                }
                cur = np;
            },
            Err(e) => {
                return Err(e);
            },
        }
        i = i + 1;
    }
    Ok(cur)
}

/// Skips `n` array elements one after another.
#[verifier::loop_isolation(false)]
fn skip_array_at(g: &Formula, n: usize, w: usize, data: &[u8], pos: usize) -> (r: Result<
    usize,
    DeserializeError,
>)
    requires
        valid_width(w as nat),
        wf(*g, w as nat),
        pos <= data@.len(),
    ensures
        match dec_array(*g, w as nat, data@, pos as int, n as int) {
            Ok(q) => r == Ok::<usize, DeserializeError>(q.1 as usize),
            Err(e) => r == Err::<usize, DeserializeError>(e),
        },
    decreases *g, 1int,
{
    let ghost wn = w as nat;
    let dlen: usize = data.len();
    let ghost d0 = dec_array(*g, wn, data@, pos as int, n as int);
    let mut cur: usize = pos;
    let mut i: usize = 0;
    while i < n
        invariant
            i <= n,
            cur <= data@.len(),
            data@.len() == dlen,
            wf(*g, wn),
            match dec_array(*g, wn, data@, cur as int, n - i) {
                Ok(rem) => d0 is Ok && d0->Ok_0.1 == rem.1,
                Err(e) => d0 == Err::<(Seq<Val>, int), DeserializeError>(e),
            },
        decreases n - i,
    {
        proof {
            if dec(*g, wn, data@, cur as int) is Ok {
                lemma_dec_in_bounds(*g, wn, data@, cur as int);
            }
        }
        match skip_at(g, w, data, cur) {
            Ok(np) => {
                proof {
                    let di = dec(*g, wn, data@, cur as int);
                    assert(di is Ok);
                    assert(di->Ok_0.1 == np as int);
                }
                cur = np;
            },
            Err(e) => {
                return Err(e);
            },
        }
        i = i + 1;
    }
    Ok(cur)
}

/// Skips `count` sequence elements at stride `m` in their sub-view.
#[verifier::loop_isolation(false)]
fn skip_list_elems(g: &Formula, w: usize, sub: &[u8], m: usize, count: usize) -> (r: Result<
    (),
    DeserializeError,
>)
    requires
        valid_width(w as nat),
        wf(*g, w as nat),
        m >= 1,
        count * m <= sub@.len(),
    ensures
        match dec_elems(*g, w as nat, sub@, m as int, 0, count as int) {
            Ok(q) => r == Ok::<(), DeserializeError>(()),
            Err(e) => r == Err::<(), DeserializeError>(e),
        },
    decreases *g, 1int,
{
    let ghost wn = w as nat;
    let slen: usize = sub.len();
    let ghost d0 = dec_elems(*g, wn, sub@, m as int, 0, count as int);
    let mut i: usize = 0;
    while i < count
        invariant
            i <= count,
            count * m <= sub@.len(),
            sub@.len() == slen,
            wf(*g, wn),
            match dec_elems(*g, wn, sub@, m as int, i as int, count as int) {
                Ok(rem) => d0 is Ok,
                Err(e) => d0 == Err::<Seq<Val>, DeserializeError>(e),
            },
        decreases count - i,
    {
        proof {
            assert(i * m + m <= count * m && 0 <= i * m) by (nonlinear_arith)
                requires
                    0 <= i < count,
                    m >= 1,
                    count * m <= sub@.len(),
            ;
        }
        match skip_at(g, w, sub, i * m) {
            Ok(_) => {},
            Err(e) => {
                return Err(e);
            },
        }
        i = i + 1;
    }
    Ok(())
}


/// The `w`-byte word stored at `pos` in `data`, as an integer.
pub open spec fn word_at(data: Seq<u8>, pos: int, w: nat) -> int {
    le_value(data.subrange(pos, pos + w)) as int
}

/// A read cursor over an immutable byte view.  Every decode narrows or
/// advances the view; the underlying bytes are never written.
pub struct Deserializer<'a> {
    /// The view this cursor reads.
    pub data: &'a [u8],
    /// The current read position within the view.
    pub pos: usize,
}

impl<'a> Deserializer<'a> {
    /// The cursor sits inside its view.
    pub open spec fn valid(&self) -> bool {
        self.pos <= self.data@.len()
    }

    /// Begins reading `data` from its start.
    pub fn new(data: &'a [u8]) -> (r: Deserializer<'a>)
        ensures
            r.data@ == data@,
            r.pos == 0,
            r.valid(),
    {
        Deserializer { data, pos: 0 }
    }

    /// Fully decodes a value of `f` at the cursor, advancing past its
    /// stack bytes on success; the cursor is unchanged on error.
    pub fn deserialize(&mut self, f: &Formula, w: usize) -> (r: Result<Value, DeserializeError>)
        requires
            valid_width(w as nat),
            wf(*f, w as nat),
            old(self).valid(),
        ensures
            final(self).data@ == old(self).data@,
            final(self).valid(),
            match dec(*f, w as nat, old(self).data@, old(self).pos as int) {
                Ok(q) => r is Ok && r->Ok_0@ == q.0 && final(self).pos == q.1,
                Err(e) => r == Err::<Value, _>(e) && final(self).pos == old(self).pos,
            },
    {
        match decode_at(f, w, self.data, self.pos) {
            Ok(p) => {
                let (v, np) = p;
                self.pos = np;
                proof {
                    lemma_dec_in_bounds(*f, w as nat, self.data@, old(self).pos as int);
                }
                Ok(v)
            },
            Err(e) => Err(e),
        }
    }

    /// Refills `place` from the buffer instead of allocating anew.  On
    /// success `place` holds exactly what `deserialize` would have
    /// returned, a sequence target being cleared and re-populated in
    /// its own storage.  On failure: a sequence target keeps its prior
    /// elements with the successfully decoded prefix appended after
    /// them; a text target was cleared before decoding and is left
    /// empty; any other target is untouched.
    pub fn deserialize_in_place(&mut self, f: &Formula, w: usize, place: &mut Value) -> (r: Result<
        (),
        DeserializeError,
    >)
        requires
            valid_width(w as nat),
            wf(*f, w as nat),
            old(self).valid(),
        ensures
            final(self).data@ == old(self).data@,
            final(self).valid(),
            match dec(*f, w as nat, old(self).data@, old(self).pos as int) {
                Ok(q) => r is Ok && final(place)@ == q.0 && final(self).pos == q.1,
                Err(e) => r == Err::<(), _>(e) && final(self).pos == old(self).pos && (match (
                    *f,
                    *old(place),
                ) {
                    (Formula::List(g), Value::List(_)) => final(place)@ == Val::List(
                        old(place)@->List_0 + list_prefix_at(
                            *g,
                            w as nat,
                            old(self).data@,
                            old(self).pos as int,
                        ),
                    ),
                    (Formula::Text, Value::Text(_)) => final(place)@ == Val::Text(
                        Seq::<u8>::empty(),
                    ),
                    _ => *final(place) == *old(place),
                }),
            },
    {
        let len = self.data.len();
        let pos = self.pos;
        let ghost wn = w as nat;
        match (f, place) {
            (Formula::List(g), Value::List(vec)) => {
                let ghost old_views = old(place)@->List_0;
                proof {
                    assert(old_views == views_of(vec@)) by {
                        assert(val_of(Value::List(*vec))->List_0 =~= views_of(vec@));
                    };
                    assert(old_views + Seq::<Val>::empty() =~= old_views);
                }
                if len - pos < 2 * w {
                    return Err(DeserializeError::OutOfBounds);
                }
                let o = read_word(self.data, pos, w);
                let count64 = read_word(self.data, pos + w, w);
                let msize = g.max_stack_size(w);
                proof {
                    assert(msize.is_some());
                }
                let m = msize.unwrap();
                proof {
                    assert((count64 as u128) * (m as u128) == (count64 as int) * (m as int)
                        && (count64 as int) * (m as int) <= u128::MAX) by (nonlinear_arith)
                        requires
                            count64 <= u64::MAX,
                            m <= u64::MAX,
                    ;
                }
                let prod: u128 = (count64 as u128) * (m as u128);
                if prod > (len as u128) || (pos as u128) + (o as u128) + prod > (len as u128) {
                    proof {
                        assert(pos + o + count64 * m > len);
                    }
                    return Err(DeserializeError::OutOfBounds);
                }
                proof {
                    assert(count64 as int <= (count64 as int) * (m as int)) by (nonlinear_arith)
                        requires
                            m >= 1,
                            count64 >= 0,
                    ;
                }
                let count = count64 as usize;
                let start = pos + (o as usize);
                let sub = slice_subrange(self.data, start, len);
                let mut fresh: Vec<Value> = Vec::new();
                match decode_list_elems(g, w, sub, m, count, &mut fresh) {
                    Ok(()) => {
                        vec.clear();
                        vec.append(&mut fresh);
                        proof {
                            assert(Seq::<Value>::empty() + fresh@ =~= fresh@);
                            assert(val_of(Value::List(*vec)) == Val::List(views_of(vec@))) by {
                                assert(val_of(Value::List(*vec))->List_0 =~= views_of(vec@));
                            };
                        }
                        self.pos = pos + 2 * w;
                        Ok(())
                    },
                    Err(e) => {
                        let ghost prefix = views_of(fresh@);
                        vec.append(&mut fresh);
                        proof {
                            assert(prefix == list_prefix_at(**g, wn, self.data@, pos as int));
                            assert(views_of(vec@) =~= old_views + prefix);
                            assert(val_of(Value::List(*vec)) == Val::List(views_of(vec@))) by {
                                assert(val_of(Value::List(*vec))->List_0 =~= views_of(vec@));
                            };
                        }
                        Err(e)
                    },
                }
            },
            (Formula::Text, Value::Text(bytes)) => {
                bytes.clear();
                proof {
                    assert(val_of(Value::Text(*bytes))->Text_0 =~= Seq::<u8>::empty());
                }
                if len - pos < 2 * w {
                    return Err(DeserializeError::OutOfBounds);
                }
                let o = read_word(self.data, pos, w);
                let l = read_word(self.data, pos + w, w);
                if (pos as u128) + (o as u128) + (l as u128) > (len as u128) {
                    return Err(DeserializeError::OutOfBounds);
                }
                let start = pos + (o as usize);
                let stop = start + (l as usize);
                let payload = slice_subrange(self.data, start, stop);
                if !crate::utf8::is_utf8(payload) {
                    return Err(DeserializeError::BadUtf8);
                }
                *bytes = slice_to_vec(payload);
                self.pos = pos + 2 * w;
                Ok(())
            },
            (other, place2) => {
                match decode_at(other, w, self.data, pos) {
                    Ok(p) => {
                        let (v, np) = p;
                        proof {
                            lemma_dec_in_bounds(*other, wn, self.data@, pos as int);
                        }
                        *place2 = v;
                        self.pos = np;
                        Ok(())
                    },
                    Err(e) => Err(e),
                }
            },
        }
    }

    /// Validates and advances past a value of `f` without
    /// materializing it: the cursor moves exactly as a full decode
    /// would move it, and fails exactly when a full decode would fail.
    pub fn skip_value(&mut self, f: &Formula, w: usize) -> (r: Result<(), DeserializeError>)
        requires
            valid_width(w as nat),
            wf(*f, w as nat),
            old(self).valid(),
        ensures
            final(self).data@ == old(self).data@,
            final(self).valid(),
            match dec(*f, w as nat, old(self).data@, old(self).pos as int) {
                Ok(q) => r is Ok && final(self).pos == q.1,
                Err(e) => r == Err::<(), _>(e) && final(self).pos == old(self).pos,
            },
    {
        let dlen: usize = self.data.len();
        match skip_at(f, w, self.data, self.pos) {
            Ok(np) => {
                proof {
                    let d = dec(*f, w as nat, self.data@, self.pos as int);
                    assert(d is Ok);
                    lemma_dec_in_bounds(*f, w as nat, self.data@, self.pos as int);
                    assert(np as int == d->Ok_0.1);
                }
                self.pos = np;
                Ok(())
            },
            Err(e) => Err(e),
        }
    }

    /// Follows one reference indirection at the cursor: validates that
    /// the referenced range lies inside the view and returns a new
    /// cursor scoped to exactly that range, advancing this cursor past
    /// the reference pair.
    pub fn deref(&mut self, w: usize) -> (r: Result<Deserializer<'a>, DeserializeError>)
        requires
            valid_width(w as nat),
            old(self).valid(),
        ensures
            final(self).data@ == old(self).data@,
            final(self).valid(),
            match r {
                Ok(sub) => {
                    let o = word_at(old(self).data@, old(self).pos as int, w as nat);
                    let l = word_at(old(self).data@, old(self).pos + w, w as nat);
                    &&& old(self).pos + 2 * w <= old(self).data@.len()
                    &&& old(self).pos + o + l <= old(self).data@.len()
                    &&& sub.data@ == old(self).data@.subrange(
                        old(self).pos + o,
                        old(self).pos + o + l,
                    )
                    &&& sub.pos == 0
                    &&& sub.valid()
                    &&& final(self).pos == old(self).pos + 2 * w
                },
                Err(e) => {
                    let o = word_at(old(self).data@, old(self).pos as int, w as nat);
                    let l = word_at(old(self).data@, old(self).pos + w, w as nat);
                    &&& e == DeserializeError::OutOfBounds
                    &&& final(self).pos == old(self).pos
                    &&& (old(self).pos + 2 * w > old(self).data@.len() || old(self).pos + o + l
                        > old(self).data@.len())
                },
            },
    {
        let len = self.data.len();
        let pos = self.pos;
        if len - pos < 2 * w {
            return Err(DeserializeError::OutOfBounds);
        }
        let o = read_word(self.data, pos, w);
        let l = read_word(self.data, pos + w, w);
        if (pos as u128) + (o as u128) + (l as u128) > (len as u128) {
            return Err(DeserializeError::OutOfBounds);
        }
        let start = pos + (o as usize);
        let stop = start + (l as usize);
        let sub = slice_subrange(self.data, start, stop);
        self.pos = pos + 2 * w;
        Ok(Deserializer { data: sub, pos: 0 })
    }

    /// The remaining bytes of the view, borrowed without copying; the
    /// cursor moves to the end.
    pub fn read_all_bytes(&mut self) -> (r: &'a [u8])
        requires
            old(self).valid(),
        ensures
            final(self).data@ == old(self).data@,
            final(self).pos == old(self).data@.len(),
            final(self).valid(),
            r@ == old(self).data@.skip(old(self).pos as int),
    {
        let len = self.data.len();
        let r = slice_subrange(self.data, self.pos, len);
        self.pos = len;
        proof {
            assert(r@ =~= old(self).data@.skip(old(self).pos as int));
        }
        r
    }

    /// Follows a sequence reference at the cursor and returns a lazy,
    /// forward-only iterator over its elements, with the element count
    /// known up front.
    pub fn into_iter<'f>(&mut self, g: &'f Formula, w: usize) -> (r: Result<
        SliceIter<'a, 'f>,
        DeserializeError,
    >)
        requires
            valid_width(w as nat),
            wf(*g, w as nat),
            is_sized(*g),
            is_exact(*g),
            1 <= max_stack(*g, w as nat) <= usize::MAX,
            old(self).valid(),
        ensures
            final(self).data@ == old(self).data@,
            final(self).valid(),
            match r {
                Ok(it) => {
                    let o = word_at(old(self).data@, old(self).pos as int, w as nat);
                    let c = word_at(old(self).data@, old(self).pos + w, w as nat);
                    &&& it.valid()
                    &&& *it.f == *g
                    &&& it.w == w
                    &&& it.count == c
                    &&& it.idx == 0
                    &&& it.sub@ == old(self).data@.skip(old(self).pos + o)
                    &&& final(self).pos == old(self).pos + 2 * w
                },
                Err(e) => {
                    let o = word_at(old(self).data@, old(self).pos as int, w as nat);
                    let c = word_at(old(self).data@, old(self).pos + w, w as nat);
                    &&& e == DeserializeError::OutOfBounds
                    &&& final(self).pos == old(self).pos
                    &&& (old(self).pos + 2 * w > old(self).data@.len() || old(self).pos + o + c
                        * max_stack(*g, w as nat) > old(self).data@.len())
                },
            },
    {
        let len = self.data.len();
        let pos = self.pos;
        if len - pos < 2 * w {
            return Err(DeserializeError::OutOfBounds);
        }
        let o = read_word(self.data, pos, w);
        let count64 = read_word(self.data, pos + w, w);
        let msize = g.max_stack_size(w);
        proof {
            assert(msize.is_some());
        }
        let m = msize.unwrap();
        proof {
            assert((count64 as u128) * (m as u128) == (count64 as int) * (m as int)
                && (count64 as int) * (m as int) <= u128::MAX) by (nonlinear_arith)
                requires
                    count64 <= u64::MAX,
                    m <= u64::MAX,
            ;
        }
        let prod: u128 = (count64 as u128) * (m as u128);
        if prod > (len as u128) || (pos as u128) + (o as u128) + prod > (len as u128) {
            proof {
                assert(pos + o + count64 * m > len);
            }
            return Err(DeserializeError::OutOfBounds);
        }
        proof {
            assert(count64 as int <= (count64 as int) * (m as int)) by (nonlinear_arith)
                requires
                    m >= 1,
                    count64 >= 0,
            ;
        }
        let count = count64 as usize;
        let start = pos + (o as usize);
        let sub = slice_subrange(self.data, start, len);
        self.pos = pos + 2 * w;
        proof {
            assert(sub@ =~= old(self).data@.skip(pos + o as int));
        }
        Ok(SliceIter { sub, f: g, w, stride: m, count, idx: 0 })
    }
}

/// A finite, length-known, forward-only reader of the packed elements
/// of an encoded sequence.
pub struct SliceIter<'a, 'f> {
    /// The sequence's sub-view: packed element slots, then their heap
    /// payloads.
    pub sub: &'a [u8],
    /// The element formula.
    pub f: &'f Formula,
    /// Reference word width.
    pub w: usize,
    /// Bytes per element slot.
    pub stride: usize,
    /// Total number of elements.
    pub count: usize,
    /// The next element to decode.
    pub idx: usize,
}

impl<'a, 'f> SliceIter<'a, 'f> {
    /// The iterator's internal consistency.
    pub open spec fn valid(&self) -> bool {
        &&& valid_width(self.w as nat)
        &&& wf(*self.f, self.w as nat)
        &&& self.stride == max_stack(*self.f, self.w as nat)
        &&& 1 <= self.stride
        &&& self.count * self.stride <= self.sub@.len()
        &&& self.idx <= self.count
    }

    /// How many elements remain.
    pub fn len(&self) -> (r: usize)
        requires
            self.valid(),
        ensures
            r == self.count - self.idx,
    {
        self.count - self.idx
    }

    /// Decodes the next element, or returns `None` when the sequence
    /// is exhausted.
    pub fn next(&mut self) -> (r: Option<Result<Value, DeserializeError>>)
        requires
            old(self).valid(),
        ensures
            final(self).valid(),
            final(self).sub@ == old(self).sub@,
            final(self).f == old(self).f,
            final(self).w == old(self).w,
            final(self).stride == old(self).stride,
            final(self).count == old(self).count,
            if old(self).idx < old(self).count {
                &&& final(self).idx == old(self).idx + 1
                &&& match dec(
                    *old(self).f,
                    old(self).w as nat,
                    old(self).sub@,
                    old(self).idx * old(self).stride,
                ) {
                    Ok(q) => r matches Some(res) && res is Ok && (res matches Ok(v) && v@ == q.0)
                    ,
                    Err(e) => r == Some(Err::<Value, _>(e)),
                }
            } else {
                r is None && final(self).idx == old(self).idx
            },
    {
        if self.idx >= self.count {
            return None;
        }
        let slen: usize = self.sub.len();
        proof {
            assert(self.idx * self.stride + self.stride <= self.count * self.stride && 0
                <= self.idx * self.stride) by (nonlinear_arith)
                requires
                    0 <= self.idx < self.count,
                    self.stride >= 1,
            ;
            assert(self.count * self.stride <= slen);
        }
        let p = self.idx * self.stride;
        self.idx = self.idx + 1;
        match decode_at(self.f, self.w, self.sub, p) {
            Ok(q) => Some(Ok(q.0)),
            Err(e) => Some(Err(e)),
        }
    }
}

/// Decodes a value of `f` from the start of `data`: returns the value
/// and the position just past its stack bytes.
pub fn deserialize(f: &Formula, w: usize, data: &[u8]) -> (r: Result<
    (Value, usize),
    DeserializeError,
>)
    requires
        valid_width(w as nat),
        wf(*f, w as nat),
    ensures
        match r {
            Ok(p) => dec(*f, w as nat, data@, 0) == Ok::<_, DeserializeError>(
                (p.0@, p.1 as int),
            ),
            Err(e) => dec(*f, w as nat, data@, 0) == Err::<(Val, int), _>(e),
        },
{
    decode_at(f, w, data, 0)
}

} // verus!
