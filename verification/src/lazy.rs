//! Deferred decoding.
//!
//! A [`Lazy`] value is a validated but undecoded checkpoint: a byte
//! range together with the formula it holds.  It is cheap to
//! construct — construction only skips over the value, checking
//! structure and bounds — and the full decode is paid only when the
//! value is actually forced, which is guaranteed to succeed.

use vstd::prelude::*;

use crate::deserialize::Deserializer;
use crate::deserialize::DeserializeError;
use crate::deserialize::dec;
use crate::deserialize::decode_at;
use crate::formula::Formula;
use crate::formula::wf;
use crate::value::Value;
use crate::word::valid_width;

verus! {

/// A validated checkpoint over an encoded value, decoded on demand.
pub struct Lazy<'a, 'f> {
    /// The view the checkpoint was taken in.
    pub data: &'a [u8],
    /// The position of the deferred value within the view.
    pub pos: usize,
    /// The deferred value's formula.
    pub f: &'f Formula,
    /// Reference word width.
    pub w: usize,
}

impl<'a, 'f> Lazy<'a, 'f> {
    /// A checkpoint is valid when it was taken over a decodable value:
    /// construction through [`Deserializer::lazy`] establishes this.
    pub open spec fn valid(&self) -> bool {
        &&& valid_width(self.w as nat)
        &&& wf(*self.f, self.w as nat)
        &&& self.pos <= self.data@.len()
        &&& dec(*self.f, self.w as nat, self.data@, self.pos as int) is Ok
    }

    /// Forces the deferred decode.  A valid checkpoint always decodes:
    /// the validation already happened at construction.
    pub fn get(&self) -> (r: Result<Value, DeserializeError>)
        requires
            self.valid(),
        ensures
            r is Ok,
            (r matches Ok(v) && v@ == dec(
                *self.f,
                self.w as nat,
                self.data@,
                self.pos as int,
            )->Ok_0.0),
    {
        match decode_at(self.f, self.w, self.data, self.pos) {
            Ok(p) => {
                let (v, _) = p;
                Ok(v)
            },
            Err(e) => {
                proof {
                    assert(false);
                }
                Err(e)
            },
        }
    }
}

impl<'a> Deserializer<'a> {
    /// Captures a lazy checkpoint of the value of `f` at the cursor,
    /// validating its structure and bounds and advancing past it; the
    /// actual decode is deferred until the checkpoint is forced.
    pub fn lazy<'f>(&mut self, f: &'f Formula, w: usize) -> (r: Result<
        Lazy<'a, 'f>,
        DeserializeError,
    >)
        requires
            valid_width(w as nat),
            wf(*f, w as nat),
            old(self).valid(),
        ensures
            final(self).data@ == old(self).data@,
            final(self).valid(),
            match dec(*f, w as nat, old(self).data@, old(self).pos as int) {
                Ok(q) => r is Ok && (r matches Ok(lz) && {
                    &&& lz.valid()
                    &&& lz.data@ == old(self).data@
                    &&& lz.pos == old(self).pos
                    &&& lz.f == f
                    &&& lz.w == w
                    &&& final(self).pos == q.1
                }),
                Err(e) => r == Err::<Lazy<'a, 'f>, _>(e) && final(self).pos == old(self).pos,
            },
    {
        let data = self.data;
        let pos = self.pos;
        match self.skip_value(f, w) {
            Ok(()) => Ok(Lazy { data, pos, f, w }),
            Err(e) => Err(e),
        }
    }
}

} // verus!
