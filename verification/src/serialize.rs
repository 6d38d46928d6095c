//! Encoding: the wire format, and the serializer that writes it.
//!
//! A buffer is a stack region followed by a heap region.  The stack
//! region holds every field at its formula-determined place; variable
//! content goes to the heap region and is addressed by an
//! (offset, length) pair of words stored where the field would be.
//! Offsets are relative to the reference's own storage position, so a
//! buffer stays valid when copied elsewhere as a whole.
//!
//! The spec functions here define the encoding mathematically; the
//! executable serializer is verified to produce exactly those bytes.

use vstd::prelude::*;

use crate::formula::Formula;
use crate::formula::max_stack;
use crate::value::Val;
use crate::value::h_size;
use crate::value::h_size_fields;
use crate::value::h_size_elems;
use crate::value::s_size;
use crate::value::s_size_fields;
use crate::value::s_size_elems;
use crate::value::shape_ok;
use crate::value::shape_fields;
use crate::value::shape_elems;
use crate::value::Value;
use crate::value::encodable;
use crate::value::lemma_exact_size_elems;
use crate::value::lemma_wf_all_index;
use crate::value::total_size;
use crate::value::value_sizes;
use crate::formula::wf;
use crate::formula::wf_all;
use crate::word::le_bytes;
use crate::word::lemma_le_bytes_len;
use crate::word::lemma_pow256_values;
use crate::word::valid_width;
use crate::word::write_word;

verus! {

broadcast use vstd::std_specs::vec::group_vec_axioms;

/// A word holding a self-relative offset; negative junk clamps to zero.
pub open spec fn word_of(n: int, w: nat) -> Seq<u8> {
    le_bytes(
        if n >= 0 {
            n as nat
        } else {
            0
        },
        w,
    )
}

/// The stack-region bytes of `v` encoded as `f`.
///
/// `gap` is the distance from the first stack byte of this value to
/// the first heap byte of this value: references store it as their
/// offset word, and it shrinks by a field's stack size and grows by a
/// field's heap size as encoding walks a composite.
pub open spec fn enc_stack(f: Formula, v: Val, w: nat, gap: int) -> Seq<u8>
    decreases f, 0int, 0int,
{
    match (f, v) {
        (Formula::Bool, Val::Bool(b)) => seq![
            if b {
                1u8
            } else {
                0u8
            },
        ],
        (Formula::U8, Val::U8(n)) => le_bytes(n as nat, 1),
        (Formula::U16, Val::U16(n)) => le_bytes(n as nat, 2),
        (Formula::U32, Val::U32(n)) => le_bytes(n as nat, 4),
        (Formula::U64, Val::U64(n)) => le_bytes(n as nat, 8),
        (Formula::Tuple(fs), Val::Tuple(vs)) => enc_stack_fields(fs@, vs, w, gap, 0),
        (Formula::Array(g, n), Val::List(vs)) => enc_stack_elems(*g, vs, w, gap, 0),
        (Formula::Maybe(g), Val::Nothing) => le_bytes(0, 4),
        (Formula::Maybe(g), Val::Just(x)) => le_bytes(1, 4) + enc_stack(*g, *x, w, gap - 4),
        (Formula::Union(fs), Val::Variant(d, x)) => le_bytes(d as nat, 4) + if d < fs@.len() {
            enc_stack(fs@[d as int], *x, w, gap - 4)
        } else {
            Seq::empty()
        },
        (Formula::RefTo(g), x) => word_of(gap, w) + le_bytes(
            s_size(*g, x, w) + h_size(*g, x, w),
            w,
        ),
        (Formula::List(g), Val::List(vs)) => word_of(gap, w) + le_bytes(vs.len(), w),
        (Formula::Text, Val::Text(b)) => word_of(gap, w) + le_bytes(b.len(), w),
        (Formula::Blob, Val::Blob(b)) => b,
        _ => Seq::empty(),
    }
}

pub open spec fn enc_stack_fields(
    fs: Seq<Formula>,
    vs: Seq<Val>,
    w: nat,
    gap: int,
    i: int,
) -> Seq<u8>
    decreases fs, fs.len() - i, 1int,
{
    if i < 0 || i >= fs.len() || vs.len() != fs.len() {
        Seq::empty()
    } else {
        enc_stack(fs[i], vs[i], w, gap) + enc_stack_fields(
            fs,
            vs,
            w,
            gap - s_size(fs[i], vs[i], w) + h_size(fs[i], vs[i], w),
            i + 1,
        )
    }
}

pub open spec fn enc_stack_elems(g: Formula, vs: Seq<Val>, w: nat, gap: int, i: int) -> Seq<u8>
    decreases g, vs.len() - i, 1int,
{
    if i < 0 || i >= vs.len() {
        Seq::empty()
    } else {
        enc_stack(g, vs[i], w, gap) + enc_stack_elems(
            g,
            vs,
            w,
            gap - s_size(g, vs[i], w) + h_size(g, vs[i], w),
            i + 1,
        )
    }
}

/// The heap-region bytes of `v` encoded as `f`: the payloads of every
/// reference the stack region makes, in write order.  A reference's
/// payload is itself a full encoding — its own stack then its own heap.
pub open spec fn enc_heap(f: Formula, v: Val, w: nat) -> Seq<u8>
    decreases f, 0int, 0int,
{
    match (f, v) {
        (Formula::Tuple(fs), Val::Tuple(vs)) => enc_heap_fields(fs@, vs, w, 0),
        (Formula::Array(g, n), Val::List(vs)) => enc_heap_elems(*g, vs, w, 0),
        (Formula::Maybe(g), Val::Just(x)) => enc_heap(*g, *x, w),
        (Formula::Union(fs), Val::Variant(d, x)) => if d < fs@.len() {
            enc_heap(fs@[d as int], *x, w)
        } else {
            Seq::empty()
        },
        (Formula::RefTo(g), x) => enc_stack(*g, x, w, s_size(*g, x, w) as int) + enc_heap(
            *g,
            x,
            w,
        ),
        (Formula::List(g), Val::List(vs)) => enc_stack_elems(
            *g,
            vs,
            w,
            (vs.len() * max_stack(*g, w)) as int,
            0,
        ) + enc_heap_elems(*g, vs, w, 0),
        (Formula::Text, Val::Text(b)) => b,
        _ => Seq::empty(),
    }
}

pub open spec fn enc_heap_fields(fs: Seq<Formula>, vs: Seq<Val>, w: nat, i: int) -> Seq<u8>
    decreases fs, fs.len() - i, 1int,
{
    if i < 0 || i >= fs.len() || vs.len() != fs.len() {
        Seq::empty()
    } else {
        enc_heap(fs[i], vs[i], w) + enc_heap_fields(fs, vs, w, i + 1)
    }
}

pub open spec fn enc_heap_elems(g: Formula, vs: Seq<Val>, w: nat, i: int) -> Seq<u8>
    decreases g, vs.len() - i, 1int,
{
    if i < 0 || i >= vs.len() {
        Seq::empty()
    } else {
        enc_heap(g, vs[i], w) + enc_heap_elems(g, vs, w, i + 1)
    }
}

/// The whole buffer: the stack region, whose references reach past its
/// own end into the heap region that follows it.
pub open spec fn enc_full(f: Formula, v: Val, w: nat) -> Seq<u8> {
    enc_stack(f, v, w, s_size(f, v, w) as int) + enc_heap(f, v, w)
}

/// The stack region is exactly `s_size` bytes, whatever the gap.
pub proof fn lemma_enc_stack_len(f: Formula, v: Val, w: nat, gap: int)
    requires
        shape_ok(f, v),
    ensures
        enc_stack(f, v, w, gap).len() == s_size(f, v, w),
    decreases f, 0int, 0int,
{
    match (f, v) {
        (Formula::U8, Val::U8(n)) => lemma_le_bytes_len(n as nat, 1),
        (Formula::U16, Val::U16(n)) => lemma_le_bytes_len(n as nat, 2),
        (Formula::U32, Val::U32(n)) => lemma_le_bytes_len(n as nat, 4),
        (Formula::U64, Val::U64(n)) => lemma_le_bytes_len(n as nat, 8),
        (Formula::Tuple(fs), Val::Tuple(vs)) => {
            lemma_enc_stack_fields_len(fs@, vs, w, gap, 0);
        },
        (Formula::Array(g, n), Val::List(vs)) => {
            lemma_enc_stack_elems_len(*g, vs, w, gap, 0);
        },
        (Formula::Maybe(g), Val::Nothing) => lemma_le_bytes_len(0, 4),
        (Formula::Maybe(g), Val::Just(x)) => {
            lemma_le_bytes_len(1, 4);
            lemma_enc_stack_len(*g, *x, w, gap - 4);
        },
        (Formula::Union(fs), Val::Variant(d, x)) => {
            lemma_le_bytes_len(d as nat, 4);
            lemma_enc_stack_len(fs@[d as int], *x, w, gap - 4);
        },
        (Formula::RefTo(g), x) => {
            lemma_word_pair_len(gap, (s_size(*g, x, w) + h_size(*g, x, w)) as int, w);
        },
        (Formula::List(g), Val::List(vs)) => {
            lemma_word_pair_len(gap, vs.len() as int, w);
        },
        (Formula::Text, Val::Text(b)) => {
            lemma_word_pair_len(gap, b.len() as int, w);
        },
        _ => {},
    }
}

/// An (offset, length) pair occupies two words.
pub proof fn lemma_word_pair_len(a: int, b: int, w: nat)
    ensures
        (word_of(a, w) + le_bytes(
            if b >= 0 {
                b as nat
            } else {
                0
            },
            w,
        )).len() == 2 * w,
        word_of(a, w).len() == w,
{
    lemma_le_bytes_len(
        if a >= 0 {
            a as nat
        } else {
            0
        },
        w,
    );
    lemma_le_bytes_len(
        if b >= 0 {
            b as nat
        } else {
            0
        },
        w,
    );
}

pub proof fn lemma_enc_stack_fields_len(fs: Seq<Formula>, vs: Seq<Val>, w: nat, gap: int, i: int)
    requires
        shape_fields(fs, vs, i),
        vs.len() == fs.len(),
    ensures
        enc_stack_fields(fs, vs, w, gap, i).len() == s_size_fields(fs, vs, w, i),
    decreases fs, fs.len() - i, 1int,
{
    if 0 <= i < fs.len() {
        lemma_enc_stack_len(fs[i], vs[i], w, gap);
        lemma_enc_stack_fields_len(
            fs,
            vs,
            w,
            gap - s_size(fs[i], vs[i], w) + h_size(fs[i], vs[i], w),
            i + 1,
        );
    }
}

pub proof fn lemma_enc_stack_elems_len(g: Formula, vs: Seq<Val>, w: nat, gap: int, i: int)
    requires
        shape_elems(g, vs, i),
    ensures
        enc_stack_elems(g, vs, w, gap, i).len() == s_size_elems(g, vs, w, i),
    decreases g, vs.len() - i, 1int,
{
    if 0 <= i < vs.len() {
        lemma_enc_stack_len(g, vs[i], w, gap);
        lemma_enc_stack_elems_len(
            g,
            vs,
            w,
            gap - s_size(g, vs[i], w) + h_size(g, vs[i], w),
            i + 1,
        );
    }
}

/// The heap region is exactly `h_size` bytes.
pub proof fn lemma_enc_heap_len(f: Formula, v: Val, w: nat)
    requires
        shape_ok(f, v),
    ensures
        enc_heap(f, v, w).len() == h_size(f, v, w),
    decreases f, 0int, 0int,
{
    match (f, v) {
        (Formula::Tuple(fs), Val::Tuple(vs)) => {
            lemma_enc_heap_fields_len(fs@, vs, w, 0);
        },
        (Formula::Array(g, n), Val::List(vs)) => {
            lemma_enc_heap_elems_len(*g, vs, w, 0);
        },
        (Formula::Maybe(g), Val::Just(x)) => {
            lemma_enc_heap_len(*g, *x, w);
        },
        (Formula::Union(fs), Val::Variant(d, x)) => {
            lemma_enc_heap_len(fs@[d as int], *x, w);
        },
        (Formula::RefTo(g), x) => {
            lemma_enc_stack_len(*g, x, w, s_size(*g, x, w) as int);
            lemma_enc_heap_len(*g, x, w);
        },
        (Formula::List(g), Val::List(vs)) => {
            lemma_enc_stack_elems_len(*g, vs, w, (vs.len() * max_stack(*g, w)) as int, 0);
            lemma_enc_heap_elems_len(*g, vs, w, 0);
        },
        _ => {},
    }
}

pub proof fn lemma_enc_heap_fields_len(fs: Seq<Formula>, vs: Seq<Val>, w: nat, i: int)
    requires
        shape_fields(fs, vs, i),
        vs.len() == fs.len(),
    ensures
        enc_heap_fields(fs, vs, w, i).len() == h_size_fields(fs, vs, w, i),
    decreases fs, fs.len() - i, 1int,
{
    if 0 <= i < fs.len() {
        lemma_enc_heap_len(fs[i], vs[i], w);
        lemma_enc_heap_fields_len(fs, vs, w, i + 1);
    }
}

pub proof fn lemma_enc_heap_elems_len(g: Formula, vs: Seq<Val>, w: nat, i: int)
    requires
        shape_elems(g, vs, i),
    ensures
        enc_heap_elems(g, vs, w, i).len() == h_size_elems(g, vs, w, i),
    decreases g, vs.len() - i, 1int,
{
    if 0 <= i < vs.len() {
        lemma_enc_heap_len(g, vs[i], w);
        lemma_enc_heap_elems_len(g, vs, w, i + 1);
    }
}

/// Concatenation of byte strings is associative.
proof fn seq_assoc(a: Seq<u8>, b: Seq<u8>, c: Seq<u8>)
    ensures
        (a + b) + c == a + (b + c),
{
    assert((a + b) + c =~= a + (b + c));
}

/// Appends a byte string to a buffer.
#[verifier::loop_isolation(false)]
fn push_bytes(out: &mut Vec<u8>, b: &[u8])
    ensures
        final(out)@ == old(out)@ + b@,
{
    let mut i: usize = 0;
    while i < b.len()
        invariant
            i <= b.len(),
            out@ == old(out)@ + b@.subrange(0, i as int),
        decreases b.len() - i,
    {
        proof {
            assert(b@.subrange(0, i + 1) =~= b@.subrange(0, i as int) + seq![b@[i as int]]);
            seq_assoc(old(out)@, b@.subrange(0, i as int), seq![b@[i as int]]);
            assert(out@.push(b@[i as int]) =~= out@ + seq![b@[i as int]]);
        }
        out.push(b[i]);
        i = i + 1;
    }
    proof {
        assert(b@.subrange(0, b@.len() as int) =~= b@);
    }
}

/// Writes the stack bytes of `v` as `f` onto `stack` and its heap
/// bytes onto `heap`, with the value's heap payload `gap` bytes after
/// the start of its stack bytes.
#[verifier::loop_isolation(false)]
fn encode_into(f: &Formula, v: &Value, w: usize, gap: usize, stack: &mut Vec<u8>, heap: &mut Vec<u8>)
    requires
        valid_width(w as nat),
        wf(*f, w as nat),
        shape_ok(*f, v@),
        gap >= s_size(*f, v@, w as nat),
        gap + h_size(*f, v@, w as nat) <= usize::MAX,
    ensures
        final(stack)@ == old(stack)@ + enc_stack(*f, v@, w as nat, gap as int),
        final(heap)@ == old(heap)@ + enc_heap(*f, v@, w as nat),
    decreases *f,
{
    proof {
        let e: Seq<u8> = Seq::empty();
        assert(old(heap)@ + e =~= old(heap)@);
        assert(old(stack)@ + e =~= old(stack)@);
    }
    match (f, v) {
        (Formula::Bool, Value::Bool(b)) => {
            let byte: u8 = if *b {
                1
            } else {
                0
            };
            proof {
                assert(old(stack)@.push(byte) =~= old(stack)@ + enc_stack(
                    *f,
                    v@,
                    w as nat,
                    gap as int,
                ));
            }
            stack.push(byte);
        },
        (Formula::U8, Value::U8(n)) => {
            write_word(stack, *n as u64, 1);
        },
        (Formula::U16, Value::U16(n)) => {
            write_word(stack, *n as u64, 2);
        },
        (Formula::U32, Value::U32(n)) => {
            write_word(stack, *n as u64, 4);
        },
        (Formula::U64, Value::U64(n)) => {
            write_word(stack, *n, 8);
        },
        (Formula::Tuple(fs), Value::Tuple(vs)) => {
            let ghost vseq = v@->Tuple_0;
            let ghost gap0 = gap as int;
            let ghost wn = w as nat;
            let mut gcur: usize = gap;
            let mut i: usize = 0;
            while i < fs.len()
                invariant
                    i <= fs.len(),
                    vs@.len() == fs@.len(),
                    vseq.len() == vs@.len(),
                    forall|k: int| 0 <= k < vs@.len() ==> vseq[k] == #[trigger] vs@[k]@,
                    wf_all(fs@, wn, i as int),
                    shape_fields(fs@, vseq, i as int),
                    gcur >= s_size_fields(fs@, vseq, wn, i as int),
                    gcur + h_size_fields(fs@, vseq, wn, i as int) <= usize::MAX,
                    stack@ + enc_stack_fields(fs@, vseq, wn, gcur as int, i as int) == old(
                        stack,
                    )@ + enc_stack_fields(fs@, vseq, wn, gap0, 0),
                    heap@ + enc_heap_fields(fs@, vseq, wn, i as int) == old(heap)@
                        + enc_heap_fields(fs@, vseq, wn, 0),
                decreases fs.len() - i,
            {
                proof {
                    assert(vseq[i as int] == vs@[i as int]@);
                }
                let sizes = value_sizes(&fs[i], &vs[i], w);
                proof {
                    assert(sizes.is_some());
                }
                let p = sizes.unwrap();
                let (si, hi) = p;
                let ghost pre_stack = stack@;
                let ghost pre_heap = heap@;
                encode_into(&fs[i], &vs[i], w, gcur, stack, heap);
                proof {
                    let a = enc_stack(fs@[i as int], vseq[i as int], wn, gcur as int);
                    let b = enc_stack_fields(
                        fs@,
                        vseq,
                        wn,
                        gcur - si + hi,
                        i + 1,
                    );
                    seq_assoc(pre_stack, a, b);
                    let c = enc_heap(fs@[i as int], vseq[i as int], wn);
                    let d = enc_heap_fields(fs@, vseq, wn, i + 1);
                    seq_assoc(pre_heap, c, d);
                }
                gcur = gcur - si + hi;
                i = i + 1;
            }
            proof {
                let e: Seq<u8> = Seq::empty();
                assert(stack@ + e =~= stack@);
                assert(heap@ + e =~= heap@);
            }
        },
        (Formula::Array(g, n), Value::List(vs)) => {
            let ghost vseq = v@->List_0;
            let ghost gap0 = gap as int;
            let ghost wn = w as nat;
            let mut gcur: usize = gap;
            let mut i: usize = 0;
            while i < vs.len()
                invariant
                    i <= vs.len(),
                    vseq.len() == vs@.len(),
                    forall|k: int| 0 <= k < vs@.len() ==> vseq[k] == #[trigger] vs@[k]@,
                    wf(**g, wn),
                    shape_elems(**g, vseq, i as int),
                    gcur >= s_size_elems(**g, vseq, wn, i as int),
                    gcur + h_size_elems(**g, vseq, wn, i as int) <= usize::MAX,
                    stack@ + enc_stack_elems(**g, vseq, wn, gcur as int, i as int) == old(
                        stack,
                    )@ + enc_stack_elems(**g, vseq, wn, gap0, 0),
                    heap@ + enc_heap_elems(**g, vseq, wn, i as int) == old(heap)@
                        + enc_heap_elems(**g, vseq, wn, 0),
                decreases vs.len() - i,
            {
                proof {
                    assert(vseq[i as int] == vs@[i as int]@);
                }
                let sizes = value_sizes(g, &vs[i], w);
                proof {
                    assert(sizes.is_some());
                }
                let p = sizes.unwrap();
                let (si, hi) = p;
                let ghost pre_stack = stack@;
                let ghost pre_heap = heap@;
                encode_into(g, &vs[i], w, gcur, stack, heap);
                proof {
                    let a = enc_stack(**g, vseq[i as int], wn, gcur as int);
                    let b = enc_stack_elems(**g, vseq, wn, gcur - si + hi, i + 1);
                    seq_assoc(pre_stack, a, b);
                    let c = enc_heap(**g, vseq[i as int], wn);
                    let d = enc_heap_elems(**g, vseq, wn, i + 1);
                    seq_assoc(pre_heap, c, d);
                }
                gcur = gcur - si + hi;
                i = i + 1;
            }
            proof {
                let e: Seq<u8> = Seq::empty();
                assert(stack@ + e =~= stack@);
                assert(heap@ + e =~= heap@);
            }
        },
        (Formula::Maybe(_), Value::Nothing) => {
            write_word(stack, 0, 4);
        },
        (Formula::Maybe(g), Value::Just(x)) => {
            let ghost pre_stack = stack@;
            write_word(stack, 1, 4);
            encode_into(g, x, w, gap - 4, stack, heap);
            proof {
                seq_assoc(
                    pre_stack,
                    le_bytes(1, 4),
                    enc_stack(**g, x@, w as nat, gap - 4),
                );
            }
        },
        (Formula::Union(fs), Value::Variant(d, x)) => {
            let idx = *d as usize;
            proof {
                lemma_wf_all_index(fs@, w as nat, 0, *d as int);
            }
            let ghost pre_stack = stack@;
            write_word(stack, *d as u64, 4);
            encode_into(&fs[idx], x, w, gap - 4, stack, heap);
            proof {
                seq_assoc(
                    pre_stack,
                    le_bytes(*d as nat, 4),
                    enc_stack(fs@[*d as int], x@, w as nat, gap - 4),
                );
            }
        },
        (Formula::RefTo(g), _) => {
            let sizes = value_sizes(g, v, w);
            proof {
                assert(sizes.is_some());
            }
            let p = sizes.unwrap();
            let (sg, hg) = p;
            let ghost pre_stack = stack@;
            write_word(stack, gap as u64, w);
            write_word(stack, (sg + hg) as u64, w);
            proof {
                seq_assoc(
                    pre_stack,
                    word_of(gap as int, w as nat),
                    le_bytes((sg + hg) as nat, w as nat),
                );
            }
            let mut ps: Vec<u8> = Vec::new();
            let mut ph: Vec<u8> = Vec::new();
            encode_into(g, v, w, sg, &mut ps, &mut ph);
            let ghost pre_heap = heap@;
            heap.append(&mut ps);
            heap.append(&mut ph);
            proof {
                let e: Seq<u8> = Seq::empty();
                assert(e + enc_stack(**g, v@, w as nat, sg as int) =~= enc_stack(
                    **g,
                    v@,
                    w as nat,
                    sg as int,
                ));
                assert(e + enc_heap(**g, v@, w as nat) =~= enc_heap(**g, v@, w as nat));
                seq_assoc(
                    pre_heap,
                    enc_stack(**g, v@, w as nat, sg as int),
                    enc_heap(**g, v@, w as nat),
                );
            }
        },
        (Formula::List(g), Value::List(vs)) => {
            let ghost vseq = v@->List_0;
            let ghost wn = w as nat;
            let msize = g.max_stack_size(w);
            proof {
                assert(msize.is_some());
            }
            let m = msize.unwrap();
            let count = vs.len();
            proof {
                lemma_exact_size_elems(**g, vseq, wn, 0);
            }
            let prod: u128 = (count as u128) * (m as u128);
            proof {
                assert(prod == s_size_elems(**g, vseq, wn, 0)) by {
                    assert((count as u128) * (m as u128) == (count as int) * (m as int))
                        by (nonlinear_arith);
                };
            }
            let gap0e: usize = prod as usize;
            let mut ls: Vec<u8> = Vec::new();
            let mut lh: Vec<u8> = Vec::new();
            let mut gcur: usize = gap0e;
            let mut i: usize = 0;
            while i < vs.len()
                invariant
                    i <= vs.len(),
                    vseq.len() == vs@.len(),
                    forall|k: int| 0 <= k < vs@.len() ==> vseq[k] == #[trigger] vs@[k]@,
                    wf(**g, wn),
                    shape_elems(**g, vseq, i as int),
                    gcur >= s_size_elems(**g, vseq, wn, i as int),
                    gcur + h_size_elems(**g, vseq, wn, i as int) <= usize::MAX,
                    ls@ + enc_stack_elems(**g, vseq, wn, gcur as int, i as int)
                        == enc_stack_elems(**g, vseq, wn, gap0e as int, 0),
                    lh@ + enc_heap_elems(**g, vseq, wn, i as int) == enc_heap_elems(
                        **g,
                        vseq,
                        wn,
                        0,
                    ),
                decreases vs.len() - i,
            {
                proof {
                    assert(vseq[i as int] == vs@[i as int]@);
                }
                let sizes = value_sizes(g, &vs[i], w);
                proof {
                    assert(sizes.is_some());
                }
                let p = sizes.unwrap();
                let (si, hi) = p;
                let ghost pre_stack = ls@;
                let ghost pre_heap = lh@;
                encode_into(g, &vs[i], w, gcur, &mut ls, &mut lh);
                proof {
                    let a = enc_stack(**g, vseq[i as int], wn, gcur as int);
                    let b = enc_stack_elems(**g, vseq, wn, gcur - si + hi, i + 1);
                    seq_assoc(pre_stack, a, b);
                    let c = enc_heap(**g, vseq[i as int], wn);
                    let d = enc_heap_elems(**g, vseq, wn, i + 1);
                    seq_assoc(pre_heap, c, d);
                }
                gcur = gcur - si + hi;
                i = i + 1;
            }
            proof {
                let e: Seq<u8> = Seq::empty();
                assert(ls@ + e =~= ls@);
                assert(lh@ + e =~= lh@);
            }
            let ghost pre_stack = stack@;
            write_word(stack, gap as u64, w);
            write_word(stack, count as u64, w);
            proof {
                seq_assoc(pre_stack, word_of(gap as int, wn), le_bytes(count as nat, wn));
            }
            let ghost pre_heap = heap@;
            heap.append(&mut ls);
            heap.append(&mut lh);
            proof {
                seq_assoc(
                    pre_heap,
                    enc_stack_elems(**g, vseq, wn, gap0e as int, 0),
                    enc_heap_elems(**g, vseq, wn, 0),
                );
            }
        },
        (Formula::Text, Value::Text(b)) => {
            let ghost pre_stack = stack@;
            write_word(stack, gap as u64, w);
            write_word(stack, b.len() as u64, w);
            proof {
                seq_assoc(
                    pre_stack,
                    word_of(gap as int, w as nat),
                    le_bytes(b@.len(), w as nat),
                );
            }
            push_bytes(heap, b.as_slice());
        },
        (Formula::Blob, Value::Blob(b)) => {
            push_bytes(stack, b.as_slice());
        },
        _ => {
            proof {
                assert(false);
            }
        },
    }
}


/// An in-progress encoding: a stack region being filled left to right
/// against a declared reservation, and a heap region growing behind it.
///
/// The serializer follows the measure-then-write discipline: the
/// caller reserves exactly the stack footprint of what it will write
/// (see [`value_sizes`]), then writes values in declaration order.
pub struct Serializer {
    /// Width in bytes of the reference words.
    pub width: usize,
    /// Declared size of the stack region.
    pub reserve: usize,
    /// The stack region written so far.
    pub stack: Vec<u8>,
    /// The heap region written so far.
    pub heap: Vec<u8>,
}

impl Serializer {
    /// The distance from the next stack byte to the next heap byte:
    /// what a reference written now stores as its offset.
    pub open spec fn gap(&self) -> int {
        self.reserve - self.stack@.len() + self.heap@.len()
    }

    /// Begins an encoding with reference words `width` bytes wide and
    /// a stack region of exactly `stack_reserve` bytes.
    pub fn new(width: usize, stack_reserve: usize) -> (s: Serializer)
        requires
            valid_width(width as nat),
        ensures
            s.width == width,
            s.reserve == stack_reserve,
            s.stack@ == Seq::<u8>::empty(),
            s.heap@ == Seq::<u8>::empty(),
    {
        Serializer { width, reserve: stack_reserve, stack: Vec::new(), heap: Vec::new() }
    }

    /// Encodes `value` as `f` at the current stack cursor; heap-bound
    /// content goes to the heap cursor, with its reference stored
    /// inline.
    pub fn write_value(&mut self, f: &Formula, value: &Value)
        requires
            valid_width(old(self).width as nat),
            wf(*f, old(self).width as nat),
            shape_ok(*f, value@),
            old(self).stack@.len() + s_size(*f, value@, old(self).width as nat) <= old(
                self,
            ).reserve,
            old(self).gap() + h_size(*f, value@, old(self).width as nat) <= usize::MAX,
        ensures
            final(self).width == old(self).width,
            final(self).reserve == old(self).reserve,
            final(self).stack@ == old(self).stack@ + enc_stack(
                *f,
                value@,
                old(self).width as nat,
                old(self).gap(),
            ),
            final(self).heap@ == old(self).heap@ + enc_heap(*f, value@, old(self).width as nat),
    {
        let gap: usize = self.reserve - self.stack.len() + self.heap.len();
        let w = self.width;
        encode_into(f, value, w, gap, &mut self.stack, &mut self.heap);
    }

    /// Raw copy into the heap region, for leaf byte-oriented formulas.
    pub fn write_bytes(&mut self, bytes: &[u8])
        ensures
            final(self).width == old(self).width,
            final(self).reserve == old(self).reserve,
            final(self).stack@ == old(self).stack@,
            final(self).heap@ == old(self).heap@ + bytes@,
    {
        push_bytes(&mut self.heap, bytes);
    }

    /// Explicit indirection: encodes `value` as `f` into the heap
    /// region and stores the (offset, length) reference pair inline at
    /// the stack cursor.
    pub fn write_ref(&mut self, f: &Formula, value: &Value)
        requires
            valid_width(old(self).width as nat),
            wf(*f, old(self).width as nat),
            shape_ok(*f, value@),
            old(self).stack@.len() + 2 * old(self).width <= old(self).reserve,
            old(self).gap() + total_size(*f, value@, old(self).width as nat) <= usize::MAX,
        ensures
            final(self).width == old(self).width,
            final(self).reserve == old(self).reserve,
            final(self).stack@ == old(self).stack@ + word_of(
                old(self).gap(),
                old(self).width as nat,
            ) + le_bytes(total_size(*f, value@, old(self).width as nat), old(self).width as nat),
            final(self).heap@ == old(self).heap@ + enc_stack(
                *f,
                value@,
                old(self).width as nat,
                s_size(*f, value@, old(self).width as nat) as int,
            ) + enc_heap(*f, value@, old(self).width as nat),
    {
        let gap: usize = self.reserve - self.stack.len() + self.heap.len();
        let w = self.width;
        let sizes = value_sizes(f, value, w);
        proof {
            assert(sizes.is_some());
        }
        let p = sizes.unwrap();
        let (sg, hg) = p;
        write_word(&mut self.stack, gap as u64, w);
        write_word(&mut self.stack, (sg + hg) as u64, w);
        let mut ps: Vec<u8> = Vec::new();
        let mut ph: Vec<u8> = Vec::new();
        encode_into(f, value, w, sg, &mut ps, &mut ph);
        self.heap.append(&mut ps);
        self.heap.append(&mut ph);
        proof {
            let e: Seq<u8> = Seq::empty();
            assert(e + enc_stack(*f, value@, w as nat, sg as int) =~= enc_stack(
                *f,
                value@,
                w as nat,
                sg as int,
            ));
            assert(e + enc_heap(*f, value@, w as nat) =~= enc_heap(*f, value@, w as nat));
        }
    }

    /// Ends the encoding: returns the assembled buffer (stack region
    /// then heap region) and the bytes each region consumed.
    pub fn finish(self) -> (r: (Vec<u8>, usize, usize))
        requires
            self.stack@.len() == self.reserve,
        ensures
            r.0@ == self.stack@ + self.heap@,
            r.1 == self.reserve,
            r.2 == self.heap@.len(),
    {
        let Serializer { width: _, reserve, mut stack, mut heap } = self;
        let heap_len = heap.len();
        stack.append(&mut heap);
        (stack, reserve, heap_len)
    }
}

/// Encodes `value` as `f` into the front of `buf`, reference words
/// `w` bytes wide.  On success returns the stack and heap bytes
/// consumed; when `buf` is too small, returns how many more bytes it
/// needs, leaving `buf` untouched.
pub fn serialize(f: &Formula, value: &Value, w: usize, buf: &mut Vec<u8>) -> (r: Result<
    (usize, usize),
    usize,
>)
    requires
        valid_width(w as nat),
        wf(*f, w as nat),
        encodable(*f, value@, w as nat),
    ensures
        match r {
            Ok(p) => {
                &&& p.0 == s_size(*f, value@, w as nat)
                &&& p.1 == h_size(*f, value@, w as nat)
                &&& p.0 + p.1 <= old(buf)@.len()
                &&& final(buf)@ == enc_full(*f, value@, w as nat) + old(buf)@.skip(
                    (p.0 + p.1) as int,
                )
            },
            Err(extra) => {
                &&& extra > 0
                &&& old(buf)@.len() + extra == total_size(*f, value@, w as nat)
                &&& final(buf)@ == old(buf)@
            },
        },
{
    let sizes = value_sizes(f, value, w);
    proof {
        assert(sizes.is_some());
    }
    let p = sizes.unwrap();
    let (s, h) = p;
    let total = s + h;
    if total > buf.len() {
        return Err(total - buf.len());
    }
    let mut ser = Serializer::new(w, s);
    ser.write_value(f, value);
    proof {
        lemma_enc_stack_len(*f, value@, w as nat, s as int);
        lemma_enc_heap_len(*f, value@, w as nat);
    }
    let (mut out, _, _) = ser.finish();
    let mut j: usize = total;
    while j < buf.len()
        invariant
            total <= j <= buf@.len(),
            out@ == enc_full(*f, value@, w as nat) + buf@.subrange(total as int, j as int),
        decreases buf.len() - j,
    {
        proof {
            assert(buf@.subrange(total as int, j + 1) =~= buf@.subrange(total as int, j as int)
                + seq![buf@[j as int]]);
            seq_assoc(
                enc_full(*f, value@, w as nat),
                buf@.subrange(total as int, j as int),
                seq![buf@[j as int]],
            );
            assert(out@.push(buf@[j as int]) =~= out@ + seq![buf@[j as int]]);
        }
        let byte = buf[j];
        out.push(byte);
        j = j + 1;
    }
    proof {
        assert(buf@.subrange(total as int, buf@.len() as int) =~= buf@.skip(total as int));
    }
    *buf = out;
    Ok((s, h))
}

/// The exact byte count `serialize` writes for `value` as `f`.
pub fn serialized_size(f: &Formula, value: &Value, w: usize) -> (r: usize)
    requires
        valid_width(w as nat),
        wf(*f, w as nat),
        encodable(*f, value@, w as nat),
    ensures
        r == total_size(*f, value@, w as nat),
{
    let sizes = value_sizes(f, value, w);
    proof {
        assert(sizes.is_some());
    }
    let p = sizes.unwrap();
    p.0 + p.1
}

/// A definite size for preallocation: `Some(n)` exactly when `value`
/// is encodable as `f`, in which case `n` is the exact byte count the
/// encoding occupies.
pub fn size_hint(f: &Formula, value: &Value, w: usize) -> (r: Option<usize>)
    requires
        valid_width(w as nat),
        wf(*f, w as nat),
    ensures
        r == if encodable(*f, value@, w as nat) {
            Some(total_size(*f, value@, w as nat) as usize)
        } else {
            None::<usize>
        },
{
    proof {
        lemma_pow256_values();
    }
    match value_sizes(f, value, w) {
        Some(p) => {
            let (s, h) = p;
            let total = s + h;
            if w == 8 || f.heapless() {
                Some(total)
            } else {
                let cap: u64 = if w == 1 {
                    0x100
                } else if w == 2 {
                    0x1_0000
                } else {
                    0x1_0000_0000
                };
                if (total as u64) < cap {
                    Some(total)
                } else {
                    None
                }
            }
        },
        None => None,
    }
}

} // verus!
