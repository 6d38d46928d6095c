//! The laws of the codec.
//!
//! The central statement is the round trip: decoding the encoding of
//! any encodable value yields that value back.  It is proved for an
//! encoding embedded anywhere in a larger view, which is what the
//! recursive cases (fields of a tuple, elements of a sequence,
//! payloads of references) need.

use vstd::prelude::*;

use crate::formula::Formula;
use crate::formula::is_exact;
use crate::formula::is_heapless;
use crate::formula::is_heapless_all;
use crate::formula::is_sized;
use crate::formula::max_stack;
use crate::formula::wf;
use crate::formula::wf_all;
use crate::deserialize::DeserializeError;
use crate::deserialize::dec;
use crate::deserialize::dec_array;
use crate::deserialize::dec_elems;
use crate::deserialize::dec_fields;
use crate::serialize::enc_full;
use crate::serialize::enc_heap;
use crate::serialize::enc_heap_elems;
use crate::serialize::enc_heap_fields;
use crate::serialize::enc_stack;
use crate::serialize::enc_stack_elems;
use crate::serialize::enc_stack_fields;
use crate::serialize::lemma_enc_heap_elems_len;
use crate::serialize::lemma_enc_heap_fields_len;
use crate::serialize::lemma_enc_heap_len;
use crate::serialize::lemma_enc_stack_elems_len;
use crate::serialize::lemma_enc_stack_fields_len;
use crate::serialize::lemma_enc_stack_len;
use crate::serialize::word_of;
use crate::value::Val;
use crate::value::encodable;
use crate::value::h_size;
use crate::value::h_size_elems;
use crate::value::h_size_fields;
use crate::value::lemma_exact_size;
use crate::value::lemma_exact_size_elems;
use crate::value::lemma_heapless_all_index;
use crate::value::lemma_heapless_zero;
use crate::value::lemma_wf_all_index;
use crate::value::s_size;
use crate::value::s_size_elems;
use crate::value::s_size_fields;
use crate::value::shape_elems;
use crate::value::shape_fields;
use crate::value::shape_ok;
use crate::value::total_size;
use crate::word::le_bytes;
use crate::word::lemma_le_bytes_len;
use crate::word::lemma_le_roundtrip;
use crate::word::lemma_pow256_values;
use crate::word::pow256;
use crate::word::valid_width;

verus! {

/// A stretch of `data` equal to a concatenation splits into its parts.
proof fn lemma_subrange_cat(data: Seq<u8>, pos: int, a: Seq<u8>, b: Seq<u8>)
    requires
        0 <= pos,
        pos + a.len() + b.len() <= data.len(),
        data.subrange(pos, pos + a.len() + b.len()) == a + b,
    ensures
        data.subrange(pos, pos + a.len()) == a,
        data.subrange(pos + a.len(), pos + a.len() + b.len()) == b,
{
    let n = a.len() + b.len();
    assert forall|k: int| 0 <= k < n implies data[pos + k] == (a + b)[k] by {
        assert(data.subrange(pos, pos + n)[k] == data[pos + k]);
    }
    assert(data.subrange(pos, pos + a.len()) =~= a);
    assert forall|k: int| 0 <= k < b.len() implies data.subrange(pos + a.len(), pos + n)[k]
        == b[k] by {
        assert(data[pos + (a.len() + k)] == (a + b)[a.len() + k]);
    }
    assert(data.subrange(pos + a.len(), pos + n) =~= b);
}

/// Round trip, embedded form: if `data` holds the stack bytes of `v`
/// at `pos` and its heap bytes `gap` further on, decoding at `pos`
/// yields exactly `v`.
pub proof fn lemma_dec_enc(f: Formula, v: Val, w: nat, data: Seq<u8>, pos: int, gap: int)
    requires
        valid_width(w),
        wf(f, w),
        shape_ok(f, v),
        0 <= pos,
        gap >= s_size(f, v, w),
        pos + gap + h_size(f, v, w) <= data.len(),
        is_heapless(f) || gap + h_size(f, v, w) < pow256(w),
        gap + h_size(f, v, w) <= usize::MAX,
        data.subrange(pos, pos + s_size(f, v, w)) == enc_stack(f, v, w, gap),
        data.subrange(pos + gap, pos + gap + h_size(f, v, w)) == enc_heap(f, v, w),
        !is_sized(f) ==> pos + gap + h_size(f, v, w) == data.len() && gap == s_size(f, v, w),
    ensures
        dec(f, w, data, pos) == Ok::<_, DeserializeError>((v, pos + s_size(f, v, w))),
    decreases f, 0int, 0int,
{
    let s = s_size(f, v, w) as int;
    let h = h_size(f, v, w) as int;
    let es = enc_stack(f, v, w, gap);
    lemma_enc_stack_len(f, v, w, gap);
    lemma_enc_heap_len(f, v, w);
    lemma_pow256_values();
    match (f, v) {
        (Formula::Bool, Val::Bool(b)) => {
            assert(data[pos] == data.subrange(pos, pos + 1)[0]);
        },
        (Formula::U8, Val::U8(n)) => {
            assert(data[pos] == data.subrange(pos, pos + 1)[0]);
            assert(es[0] == (n as nat % 256) as u8);
        },
        (Formula::U16, Val::U16(n)) => {
            lemma_le_roundtrip(n as nat, 2);
        },
        (Formula::U32, Val::U32(n)) => {
            lemma_le_roundtrip(n as nat, 4);
        },
        (Formula::U64, Val::U64(n)) => {
            lemma_le_roundtrip(n as nat, 8);
        },
        (Formula::Tuple(fs), Val::Tuple(vs)) => {
            lemma_dec_enc_fields(fs@, vs, w, data, pos, gap, 0);
            assert(vs.subrange(0, vs.len() as int) =~= vs);
            assert(dec(f, w, data, pos) == Ok::<_, DeserializeError>((Val::Tuple(vs), pos + s)));
        },
        (Formula::Array(g, n), Val::List(vs)) => {
            lemma_dec_enc_elems_seq(*g, vs, w, data, pos, gap, 0);
            assert(vs.subrange(0, vs.len() as int) =~= vs);
            assert(dec(f, w, data, pos) == Ok::<_, DeserializeError>((Val::List(vs), pos + s)));
        },
        (Formula::Maybe(g), Val::Nothing) => {
            lemma_le_bytes_len(0, 4);
            lemma_le_roundtrip(0, 4);
        },
        (Formula::Maybe(g), Val::Just(x)) => {
            lemma_le_bytes_len(1, 4);
            let inner = enc_stack(*g, *x, w, gap - 4);
            lemma_enc_stack_len(*g, *x, w, gap - 4);
            lemma_subrange_cat(data, pos, le_bytes(1, 4), inner);
            lemma_le_roundtrip(1, 4);
            lemma_dec_enc(*g, *x, w, data, pos + 4, gap - 4);
        },
        (Formula::Union(fs), Val::Variant(d, x)) => {
            lemma_le_bytes_len(d as nat, 4);
            let gd = fs@[d as int];
            lemma_wf_all_index(fs@, w, 0, d as int);
            if is_heapless(f) {
                lemma_heapless_all_index(fs@, 0, d as int);
            }
            let inner = enc_stack(gd, *x, w, gap - 4);
            lemma_enc_stack_len(gd, *x, w, gap - 4);
            lemma_subrange_cat(data, pos, le_bytes(d as nat, 4), inner);
            lemma_le_roundtrip(d as nat, 4);
            lemma_dec_enc(gd, *x, w, data, pos + 4, gap - 4);
        },
        (Formula::RefTo(g), x) => {
            let sg = s_size(*g, x, w) as int;
            let hg = h_size(*g, x, w) as int;
            let l = sg + hg;
            lemma_le_bytes_len(gap as nat, w);
            lemma_le_bytes_len(l as nat, w);
            lemma_subrange_cat(data, pos, word_of(gap, w), le_bytes(l as nat, w));
            lemma_le_roundtrip(gap as nat, w);
            lemma_le_roundtrip(l as nat, w);
            if is_sized(*g) && is_exact(*g) && is_heapless(*g) {
                lemma_exact_size(*g, x, w);
                lemma_heapless_zero(*g, x, w);
            }
            let payload = data.subrange(pos + gap, pos + gap + l);
            lemma_enc_stack_len(*g, x, w, sg);
            lemma_enc_heap_len(*g, x, w);
            assert(payload.subrange(0, l) =~= payload);
            lemma_subrange_cat(payload, 0, enc_stack(*g, x, w, sg), enc_heap(*g, x, w));
            lemma_dec_enc(*g, x, w, payload, 0, sg);
        },
        (Formula::List(g), Val::List(vs)) => {
            let m = max_stack(*g, w) as int;
            let count = vs.len() as int;
            lemma_exact_size_elems(*g, vs, w, 0);
            let selems = s_size_elems(*g, vs, w, 0) as int;
            let helems = h_size_elems(*g, vs, w, 0) as int;
            assert(selems == count * m);
            lemma_le_bytes_len(gap as nat, w);
            lemma_le_bytes_len(count as nat, w);
            lemma_subrange_cat(data, pos, word_of(gap, w), le_bytes(count as nat, w));
            lemma_le_roundtrip(gap as nat, w);
            assert(count <= count * m) by (nonlinear_arith)
                requires
                    m >= 1,
                    count >= 0,
            ;
            lemma_le_roundtrip(count as nat, w);
            let sub = data.subrange(pos + gap, data.len() as int);
            lemma_enc_stack_elems_len(*g, vs, w, count * m, 0);
            lemma_enc_heap_elems_len(*g, vs, w, 0);
            assert(sub.subrange(0, h) =~= data.subrange(pos + gap, pos + gap + h));
            lemma_subrange_cat(
                sub,
                0,
                enc_stack_elems(*g, vs, w, count * m, 0),
                enc_heap_elems(*g, vs, w, 0),
            );
            lemma_dec_enc_elems(*g, vs, w, sub, count * m, 0);
            assert(vs.subrange(0, count) =~= vs);
        },
        (Formula::Text, Val::Text(b)) => {
            let l = b.len() as int;
            lemma_le_bytes_len(gap as nat, w);
            lemma_le_bytes_len(l as nat, w);
            lemma_subrange_cat(data, pos, word_of(gap, w), le_bytes(l as nat, w));
            lemma_le_roundtrip(gap as nat, w);
            lemma_le_roundtrip(l as nat, w);
            assert(data.subrange(pos + gap, pos + gap + l) == b);
        },
        (Formula::Blob, Val::Blob(b)) => {
            assert(data.subrange(pos, data.len() as int) == enc_stack(f, v, w, gap));
        },
        _ => {},
    }
}

/// Round trip for the fields `fs[i..]` of a tuple, decoded in order.
pub proof fn lemma_dec_enc_fields(
    fs: Seq<Formula>,
    vs: Seq<Val>,
    w: nat,
    data: Seq<u8>,
    pos: int,
    gap: int,
    i: int,
)
    requires
        valid_width(w),
        wf_all(fs, w, i),
        shape_fields(fs, vs, i),
        vs.len() == fs.len(),
        0 <= i <= fs.len(),
        0 <= pos,
        gap >= s_size_fields(fs, vs, w, i),
        pos + gap + h_size_fields(fs, vs, w, i) <= data.len(),
        is_heapless_all(fs, i) || gap + h_size_fields(fs, vs, w, i) < pow256(w),
        gap + h_size_fields(fs, vs, w, i) <= usize::MAX,
        data.subrange(pos, pos + s_size_fields(fs, vs, w, i)) == enc_stack_fields(
            fs,
            vs,
            w,
            gap,
            i,
        ),
        data.subrange(pos + gap, pos + gap + h_size_fields(fs, vs, w, i)) == enc_heap_fields(
            fs,
            vs,
            w,
            i,
        ),
    ensures
        dec_fields(fs, w, data, pos, i) == Ok::<_, DeserializeError>(
            (vs.subrange(i, vs.len() as int), pos + s_size_fields(fs, vs, w, i)),
        ),
    decreases fs, fs.len() - i, 1int,
{
    if i >= fs.len() {
        assert(vs.subrange(i, vs.len() as int) =~= Seq::<Val>::empty());
    } else {
        let si = s_size(fs[i], vs[i], w) as int;
        let hi = h_size(fs[i], vs[i], w) as int;
        let gap2 = gap - si + hi;
        let srest = s_size_fields(fs, vs, w, i + 1) as int;
        let hrest = h_size_fields(fs, vs, w, i + 1) as int;
        lemma_enc_stack_len(fs[i], vs[i], w, gap);
        lemma_enc_heap_len(fs[i], vs[i], w);
        lemma_enc_stack_fields_len(fs, vs, w, gap2, i + 1);
        lemma_enc_heap_fields_len(fs, vs, w, i + 1);
        lemma_subrange_cat(
            data,
            pos,
            enc_stack(fs[i], vs[i], w, gap),
            enc_stack_fields(fs, vs, w, gap2, i + 1),
        );
        lemma_subrange_cat(
            data,
            pos + gap,
            enc_heap(fs[i], vs[i], w),
            enc_heap_fields(fs, vs, w, i + 1),
        );
        lemma_dec_enc(fs[i], vs[i], w, data, pos, gap);
        let pos2 = pos + si;
        lemma_dec_enc_fields(fs, vs, w, data, pos2, gap2, i + 1);
        assert(seq![vs[i]] + vs.subrange(i + 1, vs.len() as int) =~= vs.subrange(
            i,
            vs.len() as int,
        ));
    }
}

/// Round trip for array elements decoded one after another.
pub proof fn lemma_dec_enc_elems_seq(
    g: Formula,
    vs: Seq<Val>,
    w: nat,
    data: Seq<u8>,
    pos: int,
    gap: int,
    i: int,
)
    requires
        valid_width(w),
        wf(g, w),
        is_sized(g),
        shape_elems(g, vs, i),
        0 <= i <= vs.len(),
        0 <= pos,
        gap >= s_size_elems(g, vs, w, i),
        pos + gap + h_size_elems(g, vs, w, i) <= data.len(),
        is_heapless(g) || gap + h_size_elems(g, vs, w, i) < pow256(w),
        gap + h_size_elems(g, vs, w, i) <= usize::MAX,
        data.subrange(pos, pos + s_size_elems(g, vs, w, i)) == enc_stack_elems(g, vs, w, gap, i),
        data.subrange(pos + gap, pos + gap + h_size_elems(g, vs, w, i)) == enc_heap_elems(
            g,
            vs,
            w,
            i,
        ),
    ensures
        dec_array(g, w, data, pos, vs.len() - i) == Ok::<_, DeserializeError>(
            (vs.subrange(i, vs.len() as int), pos + s_size_elems(g, vs, w, i)),
        ),
    decreases g, vs.len() - i, 1int,
{
    if i >= vs.len() {
        assert(vs.subrange(i, vs.len() as int) =~= Seq::<Val>::empty());
    } else {
        let si = s_size(g, vs[i], w) as int;
        let hi = h_size(g, vs[i], w) as int;
        let gap2 = gap - si + hi;
        let srest = s_size_elems(g, vs, w, i + 1) as int;
        let hrest = h_size_elems(g, vs, w, i + 1) as int;
        lemma_enc_stack_len(g, vs[i], w, gap);
        lemma_enc_heap_len(g, vs[i], w);
        lemma_enc_stack_elems_len(g, vs, w, gap2, i + 1);
        lemma_enc_heap_elems_len(g, vs, w, i + 1);
        lemma_subrange_cat(
            data,
            pos,
            enc_stack(g, vs[i], w, gap),
            enc_stack_elems(g, vs, w, gap2, i + 1),
        );
        lemma_subrange_cat(
            data,
            pos + gap,
            enc_heap(g, vs[i], w),
            enc_heap_elems(g, vs, w, i + 1),
        );
        lemma_dec_enc(g, vs[i], w, data, pos, gap);
        let pos2 = pos + si;
        lemma_dec_enc_elems_seq(g, vs, w, data, pos2, gap2, i + 1);
        assert(seq![vs[i]] + vs.subrange(i + 1, vs.len() as int) =~= vs.subrange(
            i,
            vs.len() as int,
        ));
    }
}

/// Round trip for sequence elements packed at stride `max_stack(g, w)`
/// in their own sub-view.
pub proof fn lemma_dec_enc_elems(g: Formula, vs: Seq<Val>, w: nat, sub: Seq<u8>, gap: int, i: int)
    requires
        valid_width(w),
        wf(g, w),
        is_sized(g),
        is_exact(g),
        1 <= max_stack(g, w),
        shape_elems(g, vs, i),
        0 <= i <= vs.len(),
        gap >= s_size_elems(g, vs, w, i),
        i * max_stack(g, w) + gap + h_size_elems(g, vs, w, i) <= sub.len(),
        gap + h_size_elems(g, vs, w, i) < pow256(w),
        gap + h_size_elems(g, vs, w, i) <= usize::MAX,
        sub.subrange(
            i * max_stack(g, w),
            i * max_stack(g, w) + s_size_elems(g, vs, w, i),
        ) == enc_stack_elems(g, vs, w, gap, i),
        sub.subrange(
            i * max_stack(g, w) + gap,
            i * max_stack(g, w) + gap + h_size_elems(g, vs, w, i),
        ) == enc_heap_elems(g, vs, w, i),
    ensures
        dec_elems(g, w, sub, max_stack(g, w) as int, i, vs.len() as int) == Ok::<
            _,
            DeserializeError,
        >(vs.subrange(i, vs.len() as int)),
    decreases g, vs.len() - i, 1int,
{
    let m = max_stack(g, w) as int;
    assert(0 <= i * m && (i + 1) * m == i * m + m) by (nonlinear_arith)
        requires
            i >= 0,
            m >= 1,
    ;
    if i >= vs.len() {
        assert(vs.subrange(i, vs.len() as int) =~= Seq::<Val>::empty());
    } else {
        let pos = i * m;
        let si = s_size(g, vs[i], w) as int;
        let hi = h_size(g, vs[i], w) as int;
        lemma_exact_size(g, vs[i], w);
        let gap2 = gap - si + hi;
        let srest = s_size_elems(g, vs, w, i + 1) as int;
        let hrest = h_size_elems(g, vs, w, i + 1) as int;
        lemma_enc_stack_len(g, vs[i], w, gap);
        lemma_enc_heap_len(g, vs[i], w);
        lemma_enc_stack_elems_len(g, vs, w, gap2, i + 1);
        lemma_enc_heap_elems_len(g, vs, w, i + 1);
        lemma_subrange_cat(
            sub,
            pos,
            enc_stack(g, vs[i], w, gap),
            enc_stack_elems(g, vs, w, gap2, i + 1),
        );
        lemma_subrange_cat(
            sub,
            pos + gap,
            enc_heap(g, vs[i], w),
            enc_heap_elems(g, vs, w, i + 1),
        );
        lemma_dec_enc(g, vs[i], w, sub, pos, gap);
        lemma_dec_enc_elems(g, vs, w, sub, gap2, i + 1);
        assert(seq![vs[i]] + vs.subrange(i + 1, vs.len() as int) =~= vs.subrange(
            i,
            vs.len() as int,
        ));
    }
}

/// Round trip: decoding the encoding of any encodable value yields
/// exactly that value, consuming exactly its stack bytes.
pub proof fn lemma_round_trip(f: Formula, v: Val, w: nat)
    requires
        valid_width(w),
        wf(f, w),
        encodable(f, v, w),
    ensures
        dec(f, w, enc_full(f, v, w), 0) == Ok::<_, DeserializeError>(
            (v, s_size(f, v, w) as int),
        ),
{
    let s = s_size(f, v, w) as int;
    let h = h_size(f, v, w) as int;
    let data = enc_full(f, v, w);
    lemma_enc_stack_len(f, v, w, s);
    lemma_enc_heap_len(f, v, w);
    assert(data.subrange(0, s + h) =~= data);
    lemma_subrange_cat(data, 0, enc_stack(f, v, w, s), enc_heap(f, v, w));
    lemma_dec_enc(f, v, w, data, 0, s);
}

/// Size accuracy: the measured size is exactly the byte count the
/// encoding occupies, so a definite `size_hint` equals what
/// `serialize` writes.
pub proof fn lemma_size_accuracy(f: Formula, v: Val, w: nat)
    requires
        shape_ok(f, v),
    ensures
        enc_full(f, v, w).len() == total_size(f, v, w),
{
    lemma_enc_stack_len(f, v, w, s_size(f, v, w) as int);
    lemma_enc_heap_len(f, v, w);
}

/// Relocation invariance: decoding is a function of byte content and
/// in-view positions alone — references are self-relative — so a
/// buffer copied verbatim to a new location decodes identically.
pub proof fn lemma_relocation(f: Formula, w: nat, first: Seq<u8>, second: Seq<u8>, pos: int)
    requires
        first == second,
    ensures
        dec(f, w, first, pos) == dec(f, w, second, pos),
{
}

/// Enum fidelity: decoding the encoding of a tagged-union value
/// yields the same discriminant and the same payload.
pub proof fn lemma_enum_fidelity(f: Formula, d: u32, x: Val, w: nat)
    requires
        valid_width(w),
        wf(f, w),
        f is Union,
        encodable(f, Val::Variant(d, Box::new(x)), w),
    ensures
        dec(f, w, enc_full(f, Val::Variant(d, Box::new(x)), w), 0) == Ok::<
            _,
            DeserializeError,
        >((Val::Variant(d, Box::new(x)), s_size(f, Val::Variant(d, Box::new(x)), w) as int)),
{
    lemma_round_trip(f, Val::Variant(d, Box::new(x)), w);
}

/// Bounds safety at the reference boundary: cutting any number of
/// bytes off the heap region of an encoded reference or text value is
/// caught by the reference's own bounds check — decoding reports an
/// out-of-bounds error, never a wrong value.
pub proof fn lemma_truncation_detected(f: Formula, v: Val, w: nat, k: int)
    requires
        valid_width(w),
        wf(f, w),
        encodable(f, v, w),
        f is RefTo || f is Text,
        1 <= k <= h_size(f, v, w),
    ensures
        dec(
            f,
            w,
            enc_full(f, v, w).take(enc_full(f, v, w).len() - k),
            0,
        ) == Err::<(Val, int), DeserializeError>(DeserializeError::OutOfBounds),
{
    let s = s_size(f, v, w) as int;
    let h = h_size(f, v, w) as int;
    let data = enc_full(f, v, w);
    lemma_enc_stack_len(f, v, w, s);
    lemma_enc_heap_len(f, v, w);
    lemma_pow256_values();
    assert(!is_heapless(f));
    let cut = data.take(data.len() - k);
    assert(s == 2 * w);
    assert(cut.len() == s + h - k);
    let second = match f {
        Formula::RefTo(g) => le_bytes((s_size(*g, v, w) + h_size(*g, v, w)) as nat, w),
        _ => le_bytes(v->Text_0.len(), w),
    };
    assert(enc_stack(f, v, w, s) == word_of(s, w) + second);
    assert forall|j: int| 0 <= j < s implies cut[j] == enc_stack(f, v, w, s)[j] by {
        assert(data.subrange(0, s)[j] == data[j]);
    }
    assert(cut.subrange(0, s) =~= enc_stack(f, v, w, s));
    lemma_le_bytes_len(s as nat, w);
    match f {
        Formula::RefTo(g) => {
            lemma_le_bytes_len((s_size(*g, v, w) + h_size(*g, v, w)) as nat, w);
        },
        _ => {
            lemma_le_bytes_len(v->Text_0.len(), w);
        },
    }
    lemma_subrange_cat(cut, 0, word_of(s, w), second);
    lemma_le_roundtrip(s as nat, w);
    match f {
        Formula::RefTo(g) => {
            lemma_le_roundtrip((s_size(*g, v, w) + h_size(*g, v, w)) as nat, w);
        },
        _ => {
            lemma_le_roundtrip(v->Text_0.len(), w);
        },
    }
}

} // verus!
