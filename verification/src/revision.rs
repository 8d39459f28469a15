//! Revision stamps and the monotonic revision counter.

use vstd::prelude::*;

verus! {

/// A revision pair `(main, sub)`. `main` advances once per applied mutation,
/// `sub` orders the extra writes of a multi-write mutation. Revisions are
/// ordered lexicographically.
#[derive(Clone, Copy, PartialEq, Eq, Structural, Debug)]
pub struct Revision {
    /// Main revision, one step per applied mutation.
    pub main: i64,
    /// Sub revision within one mutation.
    pub sub: i64,
}

impl Revision {
    /// Lexicographic strict order on revision pairs.
    pub open spec fn spec_lt(self, other: Revision) -> bool {
        self.main < other.main || (self.main == other.main && self.sub < other.sub)
    }

    /// Build a revision pair.
    pub fn new(main: i64, sub: i64) -> (r: Revision)
        ensures
            r.main == main,
            r.sub == sub,
    {
        Revision { main, sub }
    }
}

/// Monotonic main-revision counter. The counter starts at zero; `next`
/// returns the incremented value that stamps the mutation being applied.
pub struct RevisionNumber {
    /// The revision of the most recently applied mutation.
    rev: i64,
}

impl RevisionNumber {
    /// The revision a fresh store starts from.
    pub fn new() -> (r: RevisionNumber)
        ensures
            r.rev() == 0,
    {
        RevisionNumber { rev: 0 }
    }

    /// Current revision.
    pub closed spec fn rev(self) -> i64 {
        self.rev
    }

    /// Read the current revision without advancing it.
    pub fn get(&self) -> (r: i64)
        ensures
            r == self.rev(),
    {
        self.rev
    }

    /// Advance to and return the next revision.
    pub fn next(&mut self) -> (r: i64)
        requires
            old(self).rev() < i64::MAX,
        ensures
            final(self).rev() == old(self).rev() + 1,
            r == final(self).rev(),
    {
        self.rev = self.rev + 1;
        self.rev
    }
}

} // verus!
