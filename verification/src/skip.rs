//! The universal no-op decode target.
//!
//! [`Skip`] implements the decode contract for any formula without
//! materializing anything: it validates structure and bounds and
//! advances the cursor exactly as a full decode would, so later fields
//! stay correctly positioned and errors are still detected.

use vstd::prelude::*;

use crate::deserialize::Deserializer;
use crate::deserialize::DeserializeError;
use crate::deserialize::dec;
use crate::formula::Formula;
use crate::formula::wf;
use crate::word::valid_width;

verus! {

/// No-op deserializer for any formula.
pub struct Skip;

impl Skip {
    /// Validates and passes over a value of `f` at the cursor,
    /// consuming exactly the bytes a full decode would consume and
    /// failing exactly when a full decode would fail.
    pub fn deserialize(de: &mut Deserializer, f: &Formula, w: usize) -> (r: Result<
        Skip,
        DeserializeError,
    >)
        requires
            valid_width(w as nat),
            wf(*f, w as nat),
            old(de).valid(),
        ensures
            final(de).data@ == old(de).data@,
            final(de).valid(),
            match dec(*f, w as nat, old(de).data@, old(de).pos as int) {
                Ok(q) => r is Ok && final(de).pos == q.1,
                Err(e) => r == Err::<Skip, _>(e) && final(de).pos == old(de).pos,
            },
    {
        match de.skip_value(f, w) {
            Ok(()) => Ok(Skip),
            Err(e) => Err(e),
        }
    }

    /// The in-place form of the no-op decode: identical cursor motion,
    /// nothing stored.
    pub fn deserialize_in_place(&mut self, de: &mut Deserializer, f: &Formula, w: usize) -> (r:
        Result<(), DeserializeError>)
        requires
            valid_width(w as nat),
            wf(*f, w as nat),
            old(de).valid(),
        ensures
            final(de).data@ == old(de).data@,
            final(de).valid(),
            match dec(*f, w as nat, old(de).data@, old(de).pos as int) {
                Ok(q) => r is Ok && final(de).pos == q.1,
                Err(e) => r == Err::<(), _>(e) && final(de).pos == old(de).pos,
            },
    {
        de.skip_value(f, w)
    }
}

} // verus!
