//! Repairing the `decoded` flag of captured periods.
//!
//! A period's flag says whether its own LLR vector decodes single-shot. That
//! is a pure function of the stored vector, so databases with wrong flags can
//! be repaired in place.

use vstd::prelude::*;

verus! {

/// What a repair run has done so far.
#[derive(Clone, Copy, Debug, PartialEq, Eq, Structural)]
pub struct Backfill {
    /// Periods that decode single-shot.
    pub decoded: usize,
    /// Flags corrected.
    pub changed: usize,
    /// Periods skipped because of their vector's length.
    pub skipped: usize,
}

/// The flag of a period that decodes single-shot or does not.
pub open spec fn flag_of(decoded: bool) -> i64 {
    if decoded {
        1
    } else {
        0
    }
}

/// The flag to write, if the stored one is wrong.
pub open spec fn correction(prev: i64, decoded: bool) -> Option<i64> {
    if prev == flag_of(decoded) {
        None
    } else {
        Some(flag_of(decoded))
    }
}

impl Backfill {
    /// A run that has examined nothing yet.
    pub fn new() -> (b: Self)
        ensures
            b == (Backfill { decoded: 0, changed: 0, skipped: 0 }),
    {
        Backfill { decoded: 0, changed: 0, skipped: 0 }
    }

    /// Counts a period whose vector has the wrong length.
    pub fn skip(&mut self)
        requires
            old(self).skipped < usize::MAX,
        ensures
            *final(self) == (Backfill { skipped: (old(self).skipped + 1) as usize, ..*old(self) }),
    {
        self.skipped = self.skipped + 1;
    }

    /// Counts a period that was examined, and gives the flag to write in
    /// place of `prev` if that is wrong.
    pub fn examine(&mut self, prev: i64, decoded: bool) -> (fix: Option<i64>)
        requires
            old(self).decoded < usize::MAX,
            old(self).changed < usize::MAX,
        ensures
            fix == correction(prev, decoded),
            *final(self) == (Backfill {
                decoded: (old(self).decoded + flag_of(decoded)) as usize,
                changed: (old(self).changed + if fix is Some {
                    1int
                } else {
                    0int
                }) as usize,
                skipped: old(self).skipped,
            }),
    {
        let flag: i64 = if decoded {
            1
        } else {
            0
        };
        if decoded {
            self.decoded = self.decoded + 1;
        }
        if prev != flag {
            self.changed = self.changed + 1;
            Some(flag)
        } else {
            None
        }
    }
}

/// A repaired flag is right, and a second run over it finds nothing to do.
pub proof fn lemma_repair_is_final(prev: i64, decoded: bool)
    ensures
        ({
            let stored = match correction(prev, decoded) {
                Some(flag) => flag,
                None => prev,
            };
            &&& stored == flag_of(decoded)
            &&& correction(stored, decoded) is None
        }),
{
}

} // verus!
