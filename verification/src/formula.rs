//! Schema descriptors.
//!
//! A [`Formula`] is a compile-time description of a value's binary
//! layout.  Every formula has a "stack" footprint: the bytes it occupies
//! inline, field after field, in the stack region of a buffer.  Formulas
//! for variable-length content (sequences, text, explicit references)
//! occupy a fixed pair of words on the stack and defer the content
//! itself to the heap region of the buffer.

use vstd::prelude::*;

use crate::word::valid_width;

verus! {

broadcast use vstd::std_specs::vec::group_vec_axioms;

/// The binary shape of a value.
pub enum Formula {
    /// One byte: zero decodes as false, anything else as true.
    Bool,
    /// One byte.
    U8,
    /// Two little-endian bytes.
    U16,
    /// Four little-endian bytes.
    U32,
    /// Eight little-endian bytes.
    U64,
    /// Heterogeneous fields packed in declaration order.
    Tuple(Vec<Formula>),
    /// A fixed number of elements of one formula, packed in order.
    Array(Box<Formula>, usize),
    /// An optional value: a 4-byte discriminant (0 absent, 1 present)
    /// followed, when present, by the inner formula's stack bytes.
    Maybe(Box<Formula>),
    /// A tagged union: a 4-byte discriminant selecting one variant,
    /// followed by that variant's payload.
    Union(Vec<Formula>),
    /// One layer of reference indirection: an (offset, byte length)
    /// pair on the stack pointing at the payload in the heap region.
    RefTo(Box<Formula>),
    /// A growable sequence: an (offset, element count) pair on the
    /// stack; elements are packed at a fixed stride in the heap region.
    List(Box<Formula>),
    /// Text: an (offset, byte length) pair pointing at UTF-8 bytes in
    /// the heap region.
    Text,
    /// Raw bytes stored inline, extending to the end of the enclosing
    /// view; usable on its own or behind a reference.
    Blob,
}

/// A formula is sized when its stack footprint has a static bound;
/// only raw inline bytes extend to the end of their view.
pub open spec fn is_sized(f: Formula) -> bool {
    !(f is Blob)
}

/// The stack footprint bound of a sized formula, in bytes, for
/// reference words of width `w`.
pub open spec fn max_stack(f: Formula, w: nat) -> nat
    decreases f, 0int,
{
    match f {
        Formula::Bool => 1,
        Formula::U8 => 1,
        Formula::U16 => 2,
        Formula::U32 => 4,
        Formula::U64 => 8,
        Formula::Tuple(fs) => max_stack_sum(fs@, w, 0),
        Formula::Array(g, n) => (n as nat) * max_stack(*g, w),
        Formula::Maybe(g) => 4 + max_stack(*g, w),
        Formula::Union(vs) => 4 + max_stack_max(vs@, w, 0),
        Formula::RefTo(g) => 2 * w,
        Formula::List(g) => 2 * w,
        Formula::Text => 2 * w,
        Formula::Blob => 0,
    }
}

/// Sum of the stack bounds of `fs[i..]`.
pub open spec fn max_stack_sum(fs: Seq<Formula>, w: nat, i: int) -> nat
    decreases fs, fs.len() - i, 1int,
{
    if i < 0 || i >= fs.len() {
        0
    } else {
        max_stack(fs[i], w) + max_stack_sum(fs, w, i + 1)
    }
}

/// Largest stack bound among `fs[i..]`.
pub open spec fn max_stack_max(fs: Seq<Formula>, w: nat, i: int) -> nat
    decreases fs, fs.len() - i, 1int,
{
    if i < 0 || i >= fs.len() {
        0
    } else {
        let head = max_stack(fs[i], w);
        let rest = max_stack_max(fs, w, i + 1);
        if head >= rest {
            head
        } else {
            rest
        }
    }
}

/// A formula is exact when every value's actual stack footprint equals
/// the bound `max_stack`.
pub open spec fn is_exact(f: Formula) -> bool
    decreases f, 0int,
{
    match f {
        Formula::Bool => true,
        Formula::U8 => true,
        Formula::U16 => true,
        Formula::U32 => true,
        Formula::U64 => true,
        Formula::Tuple(fs) => is_exact_all(fs@, 0),
        Formula::Array(g, n) => is_exact(*g),
        Formula::Maybe(g) => false,
        Formula::Union(vs) => false,
        Formula::RefTo(g) => true,
        Formula::List(g) => true,
        Formula::Text => true,
        Formula::Blob => false,
    }
}

pub open spec fn is_exact_all(fs: Seq<Formula>, i: int) -> bool
    decreases fs, fs.len() - i, 1int,
{
    if i < 0 || i >= fs.len() {
        true
    } else {
        is_exact(fs[i]) && is_exact_all(fs, i + 1)
    }
}

/// A formula is heapless when no value of it ever writes to the heap
/// region.
pub open spec fn is_heapless(f: Formula) -> bool
    decreases f, 0int,
{
    match f {
        Formula::Bool => true,
        Formula::U8 => true,
        Formula::U16 => true,
        Formula::U32 => true,
        Formula::U64 => true,
        Formula::Tuple(fs) => is_heapless_all(fs@, 0),
        Formula::Array(g, n) => is_heapless(*g),
        Formula::Maybe(g) => is_heapless(*g),
        Formula::Union(vs) => is_heapless_all(vs@, 0),
        Formula::RefTo(g) => false,
        Formula::List(g) => false,
        Formula::Text => false,
        Formula::Blob => true,
    }
}

pub open spec fn is_heapless_all(fs: Seq<Formula>, i: int) -> bool
    decreases fs, fs.len() - i, 1int,
{
    if i < 0 || i >= fs.len() {
        true
    } else {
        is_heapless(fs[i]) && is_heapless_all(fs, i + 1)
    }
}

/// Well-formedness: composite formulas only embed sized parts (variable
/// content must sit behind a reference), sequence elements are exact so
/// that they pack at a fixed machine-representable stride, and a union
/// has few enough variants for its 4-byte discriminant.
pub open spec fn wf(f: Formula, w: nat) -> bool
    decreases f, 0int,
{
    match f {
        Formula::Tuple(fs) => wf_all(fs@, w, 0),
        Formula::Array(g, n) => wf(*g, w) && is_sized(*g),
        Formula::Maybe(g) => wf(*g, w) && is_sized(*g),
        Formula::Union(vs) => vs@.len() <= u32::MAX && wf_all(vs@, w, 0),
        Formula::RefTo(g) => wf(*g, w),
        Formula::List(g) => wf(*g, w) && is_sized(*g) && is_exact(*g) && 1 <= max_stack(*g, w)
            && max_stack(*g, w) <= usize::MAX,
        _ => true,
    }
}

pub open spec fn wf_all(fs: Seq<Formula>, w: nat, i: int) -> bool
    decreases fs, fs.len() - i, 1int,
{
    if i < 0 || i >= fs.len() {
        true
    } else {
        wf(fs[i], w) && is_sized(fs[i]) && wf_all(fs, w, i + 1)
    }
}

/// `n * m <= usize::MAX` exactly when `m == 0 || n <= usize::MAX / m`.
proof fn lemma_mul_fits(n: nat, m: nat)
    requires
        m >= 1,
    ensures
        n * m <= usize::MAX <==> n <= (usize::MAX as nat) / m,
{
    let cap = usize::MAX as nat;
    assert(n * m <= cap <==> n <= cap / m) by (nonlinear_arith)
        requires
            m >= 1,
    ;
}

impl Formula {
    /// The formula after removing one layer of reference indirection:
    /// for references and sequences, the pointed-to element formula;
    /// formulas with no indirection are their own dereferenced shape.
    pub fn non_ref(&self) -> (r: &Formula)
        ensures
            *r == match *self {
                Formula::RefTo(g) => *g,
                Formula::List(g) => *g,
                _ => *self,
            },
    {
        match self {
            Formula::RefTo(g) => g,
            Formula::List(g) => g,
            _ => self,
        }
    }

    /// The stack footprint bound: `Some(n)` when this formula always
    /// occupies at most `n` stack bytes and `n` fits the machine;
    /// `None` for unsized formulas or bounds beyond `usize::MAX`.
    #[verifier::loop_isolation(false)]
    pub fn max_stack_size(&self, w: usize) -> (r: Option<usize>)
        requires
            valid_width(w as nat),
            wf(*self, w as nat),
        ensures
            r == if is_sized(*self) && max_stack(*self, w as nat) <= usize::MAX {
                Some(max_stack(*self, w as nat) as usize)
            } else {
                None::<usize>
            },
        decreases *self,
    {
        match self {
            Formula::Bool => Some(1),
            Formula::U8 => Some(1),
            Formula::U16 => Some(2),
            Formula::U32 => Some(4),
            Formula::U64 => Some(8),
            Formula::Tuple(fs) => {
                let mut sum: usize = 0;
                let mut i: usize = 0;
                while i < fs.len()
                    invariant
                        i <= fs.len(),
                        wf_all(fs@, w as nat, i as int),
                        max_stack_sum(fs@, w as nat, 0) == sum + max_stack_sum(
                            fs@,
                            w as nat,
                            i as int,
                        ),
                    decreases fs.len() - i,
                {
                    match fs[i].max_stack_size(w) {
                        Some(m) => {
                            if sum > usize::MAX - m {
                                proof {
                                    assert(max_stack_sum(fs@, w as nat, 0) > usize::MAX);
                                }
                                return None;
                            }
                            sum = sum + m;
                        },
                        None => {
                            proof {
                                assert(max_stack_sum(fs@, w as nat, 0) > usize::MAX);
                            }
                            return None;
                        },
                    }
                    i = i + 1;
                }
                Some(sum)
            },
            Formula::Array(g, n) => {
                match g.max_stack_size(w) {
                    Some(m) => {
                        if m == 0 {
                            proof {
                                assert((*n as nat) * 0 == 0) by (nonlinear_arith);
                            }
                            Some(0)
                        } else if *n <= usize::MAX / m {
                            proof {
                                lemma_mul_fits(*n as nat, m as nat);
                            }
                            Some(*n * m)
                        } else {
                            proof {
                                lemma_mul_fits(*n as nat, m as nat);
                            }
                            None
                        }
                    },
                    None => {
                        proof {
                            let m = max_stack(**g, w as nat);
                            if *n >= 1 {
                                assert((*n as nat) * m >= 1 * m) by (nonlinear_arith)
                                    requires
                                        *n >= 1,
                                ;
                            } else {
                                assert((*n as nat) * m == 0) by (nonlinear_arith)
                                    requires
                                        *n == 0,
                                ;
                            }
                        }
                        if *n == 0 {
                            Some(0)
                        } else {
                            None
                        }
                    },
                }
            },
            Formula::Maybe(g) => {
                match g.max_stack_size(w) {
                    Some(m) => {
                        if m <= usize::MAX - 4 {
                            Some(4 + m)
                        } else {
                            None
                        }
                    },
                    None => None,
                }
            },
            Formula::Union(vs) => {
                let mut best: usize = 0;
                let mut i: usize = 0;
                while i < vs.len()
                    invariant
                        i <= vs.len(),
                        wf_all(vs@, w as nat, i as int),
                        max_stack_max(vs@, w as nat, 0) == if best >= max_stack_max(
                            vs@,
                            w as nat,
                            i as int,
                        ) {
                            best as nat
                        } else {
                            max_stack_max(vs@, w as nat, i as int)
                        },
                    decreases vs.len() - i,
                {
                    match vs[i].max_stack_size(w) {
                        Some(m) => {
                            if m > best {
                                best = m;
                            }
                        },
                        None => {
                            proof {
                                assert(max_stack_max(vs@, w as nat, 0) > usize::MAX);
                            }
                            return None;
                        },
                    }
                    i = i + 1;
                }
                if best <= usize::MAX - 4 {
                    Some(4 + best)
                } else {
                    None
                }
            },
            Formula::RefTo(_) => Some(2 * w),
            Formula::List(_) => Some(2 * w),
            Formula::Text => Some(2 * w),
            Formula::Blob => None,
        }
    }

    /// Whether every value of this formula occupies exactly the
    /// `max_stack_size` footprint on the stack.
    #[verifier::loop_isolation(false)]
    pub fn exact_size(&self) -> (r: bool)
        ensures
            r == is_exact(*self),
        decreases *self,
    {
        match self {
            Formula::Bool => true,
            Formula::U8 => true,
            Formula::U16 => true,
            Formula::U32 => true,
            Formula::U64 => true,
            Formula::Tuple(fs) => {
                let mut i: usize = 0;
                while i < fs.len()
                    invariant
                        i <= fs.len(),
                        is_exact_all(fs@, 0) == is_exact_all(fs@, i as int),
                    decreases fs.len() - i,
                {
                    if !fs[i].exact_size() {
                        return false;
                    }
                    i = i + 1;
                }
                true
            },
            Formula::Array(g, _) => g.exact_size(),
            Formula::Maybe(_) => false,
            Formula::Union(_) => false,
            Formula::RefTo(_) => true,
            Formula::List(_) => true,
            Formula::Text => true,
            Formula::Blob => false,
        }
    }

    /// Whether this formula never writes to the heap region.
    #[verifier::loop_isolation(false)]
    pub fn heapless(&self) -> (r: bool)
        ensures
            r == is_heapless(*self),
        decreases *self,
    {
        match self {
            Formula::Bool => true,
            Formula::U8 => true,
            Formula::U16 => true,
            Formula::U32 => true,
            Formula::U64 => true,
            Formula::Tuple(fs) => {
                let mut i: usize = 0;
                while i < fs.len()
                    invariant
                        i <= fs.len(),
                        is_heapless_all(fs@, 0) == is_heapless_all(fs@, i as int),
                    decreases fs.len() - i,
                {
                    if !fs[i].heapless() {
                        return false;
                    }
                    i = i + 1;
                }
                true
            },
            Formula::Array(g, _) => g.heapless(),
            Formula::Maybe(g) => g.heapless(),
            Formula::Union(vs) => {
                let mut i: usize = 0;
                while i < vs.len()
                    invariant
                        i <= vs.len(),
                        is_heapless_all(vs@, 0) == is_heapless_all(vs@, i as int),
                    decreases vs.len() - i,
                {
                    if !vs[i].heapless() {
                        return false;
                    }
                    i = i + 1;
                }
                true
            },
            Formula::RefTo(_) => false,
            Formula::List(_) => false,
            Formula::Text => false,
            Formula::Blob => true,
        }
    }
}

/// The fast size shortcut: a definite total byte count, a pure function
/// of the formula alone, available exactly for the formulas whose
/// exactness and heaplessness make every value the same size.
pub fn formula_fast_sizes(f: &Formula, w: usize) -> (r: Option<usize>)
    requires
        valid_width(w as nat),
        wf(*f, w as nat),
    ensures
        r == if is_sized(*f) && is_exact(*f) && is_heapless(*f) && max_stack(*f, w as nat)
            <= usize::MAX {
            Some(max_stack(*f, w as nat) as usize)
        } else {
            None::<usize>
        },
{
    if f.exact_size() && f.heapless() {
        f.max_stack_size(w)
    } else {
        None
    }
}


impl Formula {
    /// Whether this formula is well-formed for reference words of
    /// width `w`: the runtime check for the `wf` obligation that the
    /// encode and decode entry points carry.
    #[verifier::loop_isolation(false)]
    pub fn check(&self, w: usize) -> (r: bool)
        requires
            valid_width(w as nat),
        ensures
            r == wf(*self, w as nat),
        decreases *self,
    {
        match self {
            Formula::Tuple(fs) => {
                let mut i: usize = 0;
                while i < fs.len()
                    invariant
                        i <= fs.len(),
                        wf_all(fs@, w as nat, 0) == wf_all(fs@, w as nat, i as int),
                    decreases fs.len() - i,
                {
                    if !fs[i].check(w) || matches!(fs[i], Formula::Blob) {
                        return false;
                    }
                    i = i + 1;
                }
                true
            },
            Formula::Array(g, _) => g.check(w) && !matches!(**g, Formula::Blob),
            Formula::Maybe(g) => g.check(w) && !matches!(**g, Formula::Blob),
            Formula::Union(vs) => {
                if vs.len() > u32::MAX as usize {
                    return false;
                }
                let mut i: usize = 0;
                while i < vs.len()
                    invariant
                        i <= vs.len(),
                        vs@.len() <= u32::MAX,
                        wf_all(vs@, w as nat, 0) == wf_all(vs@, w as nat, i as int),
                    decreases vs.len() - i,
                {
                    if !vs[i].check(w) || matches!(vs[i], Formula::Blob) {
                        return false;
                    }
                    i = i + 1;
                }
                true
            },
            Formula::RefTo(g) => g.check(w),
            Formula::List(g) => {
                if !g.check(w) || matches!(**g, Formula::Blob) || !g.exact_size() {
                    return false;
                }
                match g.max_stack_size(w) {
                    Some(m) => m >= 1,
                    None => false,
                }
            },
            _ => true,
        }
    }
}

} // verus!
