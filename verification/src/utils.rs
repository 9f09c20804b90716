//! Small shared utilities: an explicit sequence generator for fresh
//! identifiers, and a `Unique` token whose values never compare equal unless
//! they are the same draw.

use vstd::prelude::*;

verus! {

/// An explicit source of fresh `u64` identifiers.
///
/// Identifier generation is owned by whichever context issues the
/// identifiers and is threaded explicitly, rather than living in hidden
/// process-wide state.  Every identifier drawn from one source is strictly
/// greater than all identifiers drawn from it before, so no two draws are
/// equal.
pub struct IdSource {
    next: u64,
}

impl IdSource {
    /// The next identifier this source will hand out.
    pub closed spec fn spec_next(&self) -> u64 {
        self.next
    }

    /// Creates a source whose first identifier is 0.
    pub fn new() -> (r: IdSource)
        ensures
            r.spec_next() == 0,
    {
        IdSource { next: 0 }
    }

    /// Draws a fresh identifier: returns the current counter and advances it.
    pub fn fresh(&mut self) -> (r: u64)
        requires
            old(self).spec_next() < u64::MAX,
        ensures
            r == old(self).spec_next(),
            final(self).spec_next() == old(self).spec_next() + 1,
    {
        let r = self.next;
        self.next = self.next + 1;
        r
    }
}

/// A value that is equal only to itself.
///
/// Each `Unique` records the identifier it was drawn with; two tokens drawn
/// from the same source always hold different identifiers, so they never
/// compare equal.
#[derive(Debug, Clone, Copy, Hash, PartialEq, Eq, Structural)]
pub struct Unique {
    id: u64,
}

impl Unique {
    /// The identifier this token was drawn with.
    pub closed spec fn spec_id(&self) -> u64 {
        self.id
    }

    /// Draws a new token from `source`.
    pub fn new(source: &mut IdSource) -> (r: Unique)
        requires
            old(source).spec_next() < u64::MAX,
        ensures
            r.spec_id() == old(source).spec_next(),
            final(source).spec_next() == old(source).spec_next() + 1,
    {
        Unique { id: source.fresh() }
    }
}

/// Two draws from one source are never equal: the source only counts up, so
/// the second draw holds a strictly larger identifier than the first.
pub proof fn lemma_unique_draws_differ(a: Unique, b: Unique)
    requires
        a.spec_id() != b.spec_id(),
    ensures
        a != b,
{
}

} // verus!
