//! Dynamic values and their mathematical model.
//!
//! A [`Value`] is the runtime shape the engine encodes and decodes.
//! Its ghost mirror [`Val`] carries the same structure over `Seq`, and
//! every contract in the crate speaks of values through that mirror.

use vstd::prelude::*;

use crate::formula::Formula;
use crate::formula::is_sized;
use crate::formula::is_exact;
use crate::formula::is_exact_all;
use crate::formula::is_heapless;
use crate::formula::is_heapless_all;
use crate::formula::max_stack;
use crate::formula::max_stack_sum;
use crate::formula::wf;
use crate::formula::wf_all;
use crate::word::pow256;
use vstd::utf8::valid_utf8;

verus! {

broadcast use vstd::std_specs::vec::group_vec_axioms;

/// A dynamic value: the runtime subject of encoding and decoding.
#[derive(Debug, PartialEq)]
pub enum Value {
    Bool(bool),
    U8(u8),
    U16(u16),
    U32(u32),
    U64(u64),
    /// Heterogeneous fields, one per formula field.
    Tuple(Vec<Value>),
    /// Homogeneous elements: fixed arrays and growable sequences.
    List(Vec<Value>),
    /// The absent optional value.
    Nothing,
    /// The present optional value.
    Just(Box<Value>),
    /// A tagged-union value: variant index and payload.
    Variant(u32, Box<Value>),
    /// Text content as UTF-8 bytes.
    Text(Vec<u8>),
    /// Raw bytes.
    Blob(Vec<u8>),
}

/// The mathematical mirror of [`Value`]: identical structure over `Seq`.
#[verifier::ext_equal]
pub enum Val {
    Bool(bool),
    U8(u8),
    U16(u16),
    U32(u32),
    U64(u64),
    Tuple(Seq<Val>),
    List(Seq<Val>),
    Nothing,
    Just(Box<Val>),
    Variant(u32, Box<Val>),
    Text(Seq<u8>),
    Blob(Seq<u8>),
}

/// The mirror of an executable value.
pub open spec fn val_of(v: Value) -> Val
    decreases v,
{
    match v {
        Value::Bool(b) => Val::Bool(b),
        Value::U8(n) => Val::U8(n),
        Value::U16(n) => Val::U16(n),
        Value::U32(n) => Val::U32(n),
        Value::U64(n) => Val::U64(n),
        Value::Tuple(vs) => Val::Tuple(
            Seq::new(
                vs@.len(),
                |i: int|
                    if 0 <= i < vs@.len() {
                        val_of(vs@[i])
                    } else {
                        Val::Nothing
                    },
            ),
        ),
        Value::List(vs) => Val::List(
            Seq::new(
                vs@.len(),
                |i: int|
                    if 0 <= i < vs@.len() {
                        val_of(vs@[i])
                    } else {
                        Val::Nothing
                    },
            ),
        ),
        Value::Nothing => Val::Nothing,
        Value::Just(b) => Val::Just(Box::new(val_of(*b))),
        Value::Variant(d, b) => Val::Variant(d, Box::new(val_of(*b))),
        Value::Text(bs) => Val::Text(bs@),
        Value::Blob(bs) => Val::Blob(bs@),
    }
}

/// The mirrors of a sequence of executable values.
pub open spec fn views_of(vs: Seq<Value>) -> Seq<Val> {
    Seq::new(
        vs.len(),
        |i: int|
            if 0 <= i < vs.len() {
                val_of(vs[i])
            } else {
                Val::Nothing
            },
    )
}

impl View for Value {
    type V = Val;

    open spec fn view(&self) -> Val {
        val_of(*self)
    }
}

/// Whether value `v` has the shape formula `f` describes, with text
/// content well-formed and union discriminants in range.
pub open spec fn shape_ok(f: Formula, v: Val) -> bool
    decreases f, 0int, 0int,
{
    match (f, v) {
        (Formula::Bool, Val::Bool(_)) => true,
        (Formula::U8, Val::U8(_)) => true,
        (Formula::U16, Val::U16(_)) => true,
        (Formula::U32, Val::U32(_)) => true,
        (Formula::U64, Val::U64(_)) => true,
        (Formula::Tuple(fs), Val::Tuple(vs)) => vs.len() == fs@.len() && shape_fields(fs@, vs, 0),
        (Formula::Array(g, n), Val::List(vs)) => vs.len() == n && shape_elems(*g, vs, 0),
        (Formula::Maybe(g), Val::Nothing) => true,
        (Formula::Maybe(g), Val::Just(x)) => shape_ok(*g, *x),
        (Formula::Union(fs), Val::Variant(d, x)) => d < fs@.len() && shape_ok(fs@[d as int], *x),
        (Formula::RefTo(g), x) => shape_ok(*g, x),
        (Formula::List(g), Val::List(vs)) => shape_elems(*g, vs, 0),
        (Formula::Text, Val::Text(b)) => valid_utf8(b),
        (Formula::Blob, Val::Blob(_)) => true,
        _ => false,
    }
}

pub open spec fn shape_fields(fs: Seq<Formula>, vs: Seq<Val>, i: int) -> bool
    decreases fs, fs.len() - i, 1int,
{
    if i < 0 || i >= fs.len() || vs.len() != fs.len() {
        true
    } else {
        shape_ok(fs[i], vs[i]) && shape_fields(fs, vs, i + 1)
    }
}

pub open spec fn shape_elems(g: Formula, vs: Seq<Val>, i: int) -> bool
    decreases g, vs.len() - i, 1int,
{
    if i < 0 || i >= vs.len() {
        true
    } else {
        shape_ok(g, vs[i]) && shape_elems(g, vs, i + 1)
    }
}

/// The number of stack-region bytes the encoding of `v` as `f` occupies.
pub open spec fn s_size(f: Formula, v: Val, w: nat) -> nat
    decreases f, 0int, 0int,
{
    match (f, v) {
        (Formula::Bool, _) => 1,
        (Formula::U8, _) => 1,
        (Formula::U16, _) => 2,
        (Formula::U32, _) => 4,
        (Formula::U64, _) => 8,
        (Formula::Tuple(fs), Val::Tuple(vs)) => s_size_fields(fs@, vs, w, 0),
        (Formula::Array(g, n), Val::List(vs)) => s_size_elems(*g, vs, w, 0),
        (Formula::Maybe(g), Val::Just(x)) => 4 + s_size(*g, *x, w),
        (Formula::Maybe(g), _) => 4,
        (Formula::Union(fs), Val::Variant(d, x)) => if d < fs@.len() {
            4 + s_size(fs@[d as int], *x, w)
        } else {
            4
        },
        (Formula::Union(fs), _) => 4,
        (Formula::RefTo(g), _) => 2 * w,
        (Formula::List(g), _) => 2 * w,
        (Formula::Text, _) => 2 * w,
        (Formula::Blob, Val::Blob(b)) => b.len(),
        _ => 0,
    }
}

pub open spec fn s_size_fields(fs: Seq<Formula>, vs: Seq<Val>, w: nat, i: int) -> nat
    decreases fs, fs.len() - i, 1int,
{
    if i < 0 || i >= fs.len() || vs.len() != fs.len() {
        0
    } else {
        s_size(fs[i], vs[i], w) + s_size_fields(fs, vs, w, i + 1)
    }
}

pub open spec fn s_size_elems(g: Formula, vs: Seq<Val>, w: nat, i: int) -> nat
    decreases g, vs.len() - i, 1int,
{
    if i < 0 || i >= vs.len() {
        0
    } else {
        s_size(g, vs[i], w) + s_size_elems(g, vs, w, i + 1)
    }
}

/// The number of heap-region bytes the encoding of `v` as `f` occupies.
pub open spec fn h_size(f: Formula, v: Val, w: nat) -> nat
    decreases f, 0int, 0int,
{
    match (f, v) {
        (Formula::Tuple(fs), Val::Tuple(vs)) => h_size_fields(fs@, vs, w, 0),
        (Formula::Array(g, n), Val::List(vs)) => h_size_elems(*g, vs, w, 0),
        (Formula::Maybe(g), Val::Just(x)) => h_size(*g, *x, w),
        (Formula::Union(fs), Val::Variant(d, x)) => if d < fs@.len() {
            h_size(fs@[d as int], *x, w)
        } else {
            0
        },
        (Formula::RefTo(g), x) => s_size(*g, x, w) + h_size(*g, x, w),
        (Formula::List(g), Val::List(vs)) => s_size_elems(*g, vs, w, 0) + h_size_elems(
            *g,
            vs,
            w,
            0,
        ),
        (Formula::Text, Val::Text(b)) => b.len(),
        _ => 0,
    }
}

pub open spec fn h_size_fields(fs: Seq<Formula>, vs: Seq<Val>, w: nat, i: int) -> nat
    decreases fs, fs.len() - i, 1int,
{
    if i < 0 || i >= fs.len() || vs.len() != fs.len() {
        0
    } else {
        h_size(fs[i], vs[i], w) + h_size_fields(fs, vs, w, i + 1)
    }
}

pub open spec fn h_size_elems(g: Formula, vs: Seq<Val>, w: nat, i: int) -> nat
    decreases g, vs.len() - i, 1int,
{
    if i < 0 || i >= vs.len() {
        0
    } else {
        h_size(g, vs[i], w) + h_size_elems(g, vs, w, i + 1)
    }
}

/// The total byte count of the encoding: stack region plus heap region.
pub open spec fn total_size(f: Formula, v: Val, w: nat) -> nat {
    s_size(f, v, w) + h_size(f, v, w)
}

/// Whether `v` can be encoded as `f` with reference words of width `w`:
/// the shapes agree, the encoding fits the machine, and — for
/// heap-touching formulas, whose reference words must address it — it
/// fits the range of a `w`-byte word.  A heapless encoding writes no
/// reference words, so the width does not constrain it.
pub open spec fn encodable(f: Formula, v: Val, w: nat) -> bool {
    &&& shape_ok(f, v)
    &&& total_size(f, v, w) <= usize::MAX
    &&& (is_heapless(f) || total_size(f, v, w) < pow256(w))
}

/// An exact formula's values occupy exactly the `max_stack` footprint.
pub proof fn lemma_exact_size(f: Formula, v: Val, w: nat)
    requires
        is_exact(f),
        shape_ok(f, v),
    ensures
        s_size(f, v, w) == max_stack(f, w),
    decreases f, 0int, 0int,
{
    match (f, v) {
        (Formula::Tuple(fs), Val::Tuple(vs)) => {
            lemma_exact_size_fields(fs@, vs, w, 0);
        },
        (Formula::Array(g, n), Val::List(vs)) => {
            lemma_exact_size_elems(*g, vs, w, 0);
            assert(vs.len() * max_stack(*g, w) == (n as nat) * max_stack(*g, w));
        },
        _ => {},
    }
}

pub proof fn lemma_exact_size_fields(fs: Seq<Formula>, vs: Seq<Val>, w: nat, i: int)
    requires
        is_exact_all(fs, i),
        shape_fields(fs, vs, i),
        vs.len() == fs.len(),
    ensures
        s_size_fields(fs, vs, w, i) == max_stack_sum(fs, w, i),
    decreases fs, fs.len() - i, 1int,
{
    if 0 <= i < fs.len() {
        lemma_exact_size(fs[i], vs[i], w);
        lemma_exact_size_fields(fs, vs, w, i + 1);
    }
}

pub proof fn lemma_exact_size_elems(g: Formula, vs: Seq<Val>, w: nat, i: int)
    requires
        is_exact(g),
        shape_elems(g, vs, i),
        0 <= i <= vs.len(),
    ensures
        s_size_elems(g, vs, w, i) == (vs.len() - i) * max_stack(g, w),
    decreases g, vs.len() - i, 1int,
{
    let m = max_stack(g, w);
    if i < vs.len() {
        lemma_exact_size(g, vs[i], w);
        lemma_exact_size_elems(g, vs, w, i + 1);
        assert((vs.len() - i) * m == m + (vs.len() - i - 1) * m) by (nonlinear_arith);
    } else {
        assert((vs.len() - i) * m == 0) by (nonlinear_arith)
            requires
                i == vs.len(),
        ;
    }
}

/// A heapless formula's values write nothing to the heap region.
pub proof fn lemma_heapless_zero(f: Formula, v: Val, w: nat)
    requires
        is_heapless(f),
        shape_ok(f, v),
    ensures
        h_size(f, v, w) == 0,
    decreases f, 0int, 0int,
{
    match (f, v) {
        (Formula::Tuple(fs), Val::Tuple(vs)) => {
            lemma_heapless_zero_fields(fs@, vs, w, 0);
        },
        (Formula::Array(g, n), Val::List(vs)) => {
            lemma_heapless_zero_elems(*g, vs, w, 0);
        },
        (Formula::Maybe(g), Val::Just(x)) => {
            lemma_heapless_zero(*g, *x, w);
        },
        (Formula::Union(fs), Val::Variant(d, x)) => {
            lemma_heapless_all_index(fs@, 0, d as int);
            lemma_heapless_zero(fs@[d as int], *x, w);
        },
        _ => {},
    }
}

pub proof fn lemma_heapless_zero_fields(fs: Seq<Formula>, vs: Seq<Val>, w: nat, i: int)
    requires
        is_heapless_all(fs, i),
        shape_fields(fs, vs, i),
        vs.len() == fs.len(),
    ensures
        h_size_fields(fs, vs, w, i) == 0,
    decreases fs, fs.len() - i, 1int,
{
    if 0 <= i < fs.len() {
        lemma_heapless_zero(fs[i], vs[i], w);
        lemma_heapless_zero_fields(fs, vs, w, i + 1);
    }
}

pub proof fn lemma_heapless_zero_elems(g: Formula, vs: Seq<Val>, w: nat, i: int)
    requires
        is_heapless(g),
        shape_elems(g, vs, i),
    ensures
        h_size_elems(g, vs, w, i) == 0,
    decreases g, vs.len() - i, 1int,
{
    if 0 <= i < vs.len() {
        lemma_heapless_zero(g, vs[i], w);
        lemma_heapless_zero_elems(g, vs, w, i + 1);
    }
}

/// Walking `is_heapless_all` down to one index.
pub proof fn lemma_heapless_all_index(fs: Seq<Formula>, i: int, d: int)
    requires
        is_heapless_all(fs, i),
        0 <= i <= d < fs.len(),
    ensures
        is_heapless(fs[d]),
    decreases fs.len() - i,
{
    if i < d {
        lemma_heapless_all_index(fs, i + 1, d);
    }
}

/// Walking `wf_all` down to one index.
pub proof fn lemma_wf_all_index(fs: Seq<Formula>, w: nat, i: int, d: int)
    requires
        wf_all(fs, w, i),
        0 <= i <= d < fs.len(),
    ensures
        wf(fs[d], w),
        is_sized(fs[d]),
    decreases fs.len() - i,
{
    if i < d {
        lemma_wf_all_index(fs, w, i + 1, d);
    }
}


/// Measures a value against a formula: `Some((stack, heap))` exactly
/// when the value fits the formula's shape and the encoding fits the
/// machine.  This is the measuring half of the measure-then-write
/// discipline.
#[verifier::loop_isolation(false)]
pub fn value_sizes(f: &Formula, v: &Value, w: usize) -> (r: Option<(usize, usize)>)
    requires
        crate::word::valid_width(w as nat),
        wf(*f, w as nat),
    ensures
        match r {
            Some(p) => shape_ok(*f, v@) && p.0 == s_size(*f, v@, w as nat) && p.1 == h_size(
                *f,
                v@,
                w as nat,
            ) && p.0 + p.1 <= usize::MAX,
            None => !(shape_ok(*f, v@) && total_size(*f, v@, w as nat) <= usize::MAX),
        },
    decreases *f,
{
    match (f, v) {
        (Formula::Bool, Value::Bool(_)) => Some((1, 0)),
        (Formula::U8, Value::U8(_)) => Some((1, 0)),
        (Formula::U16, Value::U16(_)) => Some((2, 0)),
        (Formula::U32, Value::U32(_)) => Some((4, 0)),
        (Formula::U64, Value::U64(_)) => Some((8, 0)),
        (Formula::Tuple(fs), Value::Tuple(vs)) => {
            if vs.len() != fs.len() {
                return None;
            }
            let ghost vseq = v@->Tuple_0;
            let mut ss: usize = 0;
            let mut hh: usize = 0;
            let mut i: usize = 0;
            while i < fs.len()
                invariant
                    i <= fs.len(),
                    vs@.len() == fs@.len(),
                    vseq.len() == vs@.len(),
                    forall|k: int| 0 <= k < vs@.len() ==> vseq[k] == #[trigger] vs@[k]@,
                    wf_all(fs@, w as nat, i as int),
                    shape_fields(fs@, vseq, 0) == shape_fields(fs@, vseq, i as int),
                    s_size_fields(fs@, vseq, w as nat, 0) == ss + s_size_fields(
                        fs@,
                        vseq,
                        w as nat,
                        i as int,
                    ),
                    h_size_fields(fs@, vseq, w as nat, 0) == hh + h_size_fields(
                        fs@,
                        vseq,
                        w as nat,
                        i as int,
                    ),
                    ss + hh <= usize::MAX,
                decreases fs.len() - i,
            {
                proof {
                    assert(vseq[i as int] == vs@[i as int]@);
                }
                match value_sizes(&fs[i], &vs[i], w) {
                    Some(p) => {
                        let (s1, h1) = p;
                        if s1 > usize::MAX - ss {
                            return None;
                        }
                        let ss2 = ss + s1;
                        if h1 > usize::MAX - hh {
                            return None;
                        }
                        let hh2 = hh + h1;
                        if ss2 > usize::MAX - hh2 {
                            return None;
                        }
                        ss = ss2;
                        hh = hh2;
                    },
                    None => {
                        return None;
                    },
                }
                i = i + 1;
            }
            Some((ss, hh))
        },
        (Formula::Array(g, n), Value::List(vs)) => {
            if vs.len() != *n {
                return None;
            }
            let ghost vseq = v@->List_0;
            let mut ss: usize = 0;
            let mut hh: usize = 0;
            let mut i: usize = 0;
            while i < vs.len()
                invariant
                    i <= vs.len(),
                    vseq.len() == vs@.len(),
                    forall|k: int| 0 <= k < vs@.len() ==> vseq[k] == #[trigger] vs@[k]@,
                    shape_elems(**g, vseq, 0) == shape_elems(**g, vseq, i as int),
                    s_size_elems(**g, vseq, w as nat, 0) == ss + s_size_elems(
                        **g,
                        vseq,
                        w as nat,
                        i as int,
                    ),
                    h_size_elems(**g, vseq, w as nat, 0) == hh + h_size_elems(
                        **g,
                        vseq,
                        w as nat,
                        i as int,
                    ),
                    ss + hh <= usize::MAX,
                decreases vs.len() - i,
            {
                proof {
                    assert(vseq[i as int] == vs@[i as int]@);
                }
                match value_sizes(g, &vs[i], w) {
                    Some(p) => {
                        let (s1, h1) = p;
                        if s1 > usize::MAX - ss {
                            return None;
                        }
                        let ss2 = ss + s1;
                        if h1 > usize::MAX - hh {
                            return None;
                        }
                        let hh2 = hh + h1;
                        if ss2 > usize::MAX - hh2 {
                            return None;
                        }
                        ss = ss2;
                        hh = hh2;
                    },
                    None => {
                        return None;
                    },
                }
                i = i + 1;
            }
            Some((ss, hh))
        },
        (Formula::Maybe(_), Value::Nothing) => Some((4, 0)),
        (Formula::Maybe(g), Value::Just(x)) => {
            match value_sizes(g, x, w) {
                Some(p) => {
                    let (s1, h1) = p;
                    if s1 > usize::MAX - 4 || h1 > usize::MAX - (4 + s1) {
                        None
                    } else {
                        Some((4 + s1, h1))
                    }
                },
                None => None,
            }
        },
        (Formula::Union(fs), Value::Variant(d, x)) => {
            if (*d as usize) >= fs.len() {
                return None;
            }
            proof {
                lemma_wf_all_index(fs@, w as nat, 0, *d as int);
            }
            match value_sizes(&fs[*d as usize], x, w) {
                Some(p) => {
                    let (s1, h1) = p;
                    if s1 > usize::MAX - 4 || h1 > usize::MAX - (4 + s1) {
                        None
                    } else {
                        Some((4 + s1, h1))
                    }
                },
                None => None,
            }
        },
        (Formula::RefTo(g), _) => {
            match value_sizes(g, v, w) {
                Some(p) => {
                    let (s1, h1) = p;
                    if s1 > usize::MAX - h1 || s1 + h1 > usize::MAX - 2 * w {
                        None
                    } else {
                        Some((2 * w, s1 + h1))
                    }
                },
                None => None,
            }
        },
        (Formula::List(g), Value::List(vs)) => {
            let ghost vseq = v@->List_0;
            let mut ss: usize = 0;
            let mut hh: usize = 0;
            let mut i: usize = 0;
            while i < vs.len()
                invariant
                    i <= vs.len(),
                    vseq.len() == vs@.len(),
                    forall|k: int| 0 <= k < vs@.len() ==> vseq[k] == #[trigger] vs@[k]@,
                    shape_elems(**g, vseq, 0) == shape_elems(**g, vseq, i as int),
                    s_size_elems(**g, vseq, w as nat, 0) == ss + s_size_elems(
                        **g,
                        vseq,
                        w as nat,
                        i as int,
                    ),
                    h_size_elems(**g, vseq, w as nat, 0) == hh + h_size_elems(
                        **g,
                        vseq,
                        w as nat,
                        i as int,
                    ),
                    ss + hh <= usize::MAX,
                decreases vs.len() - i,
            {
                proof {
                    assert(vseq[i as int] == vs@[i as int]@);
                }
                match value_sizes(g, &vs[i], w) {
                    Some(p) => {
                        let (s1, h1) = p;
                        if s1 > usize::MAX - ss {
                            return None;
                        }
                        let ss2 = ss + s1;
                        if h1 > usize::MAX - hh {
                            return None;
                        }
                        let hh2 = hh + h1;
                        if ss2 > usize::MAX - hh2 {
                            return None;
                        }
                        ss = ss2;
                        hh = hh2;
                    },
                    None => {
                        return None;
                    },
                }
                i = i + 1;
            }
            if ss > usize::MAX - hh || ss + hh > usize::MAX - 2 * w {
                None
            } else {
                Some((2 * w, ss + hh))
            }
        },
        (Formula::Text, Value::Text(b)) => {
            if !crate::utf8::is_utf8(b.as_slice()) {
                return None;
            }
            if b.len() > usize::MAX - 2 * w {
                None
            } else {
                Some((2 * w, b.len()))
            }
        },
        (Formula::Blob, Value::Blob(b)) => Some((b.len(), 0)),
        _ => {
            proof {
                assert(!shape_ok(*f, v@));
            }
            None
        },
    }
}

} // verus!
