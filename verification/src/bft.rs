//! A permissioned threshold-signature consensus sketch: proposals gather
//! signatures from a committee of `n` members, become notarized once `t`
//! distinct members have signed, and notarized proposals become blocks
//! chained back to a genesis.
//!
//! Invariant breaches are explicit, recoverable errors rather than aborts,
//! so a caller can reject a proposal rather than crash.

use vstd::prelude::*;

verus! {

/// Calculates the notarization threshold used in most permissioned BFT
/// protocols: the ceiling of `n * 2 / 3`.
pub fn two_thirds_threshold(n: i32) -> (r: i32)
    requires
        0 <= n,
        2 * n + 2 <= i32::MAX,
    ensures
        r == (2 * n + 2) / 3,
        2 * n <= 3 * r < 2 * n + 3,
{
    (n * 2 + 2) / 3
}

/// The genesis of a chain: fixes the committee size `n` and the
/// notarization threshold `t`.
#[derive(Debug, Clone, Copy, PartialEq, Eq, Structural)]
pub struct Genesis {
    /// The committee size.
    pub n: i32,
    /// The notarization threshold.
    pub t: i32,
}

impl Genesis {
    /// Creates a genesis with committee size `n` and threshold `t`.
    pub fn new(n: i32, t: i32) -> (r: Self)
        ensures
            r == (Genesis { n, t }),
    {
        Genesis { n, t }
    }

    /// The committee size.
    pub fn n(&self) -> (r: i32)
        ensures
            r == self.n,
    {
        self.n
    }

    /// The notarization threshold.
    pub fn t(&self) -> (r: i32)
        ensures
            r == self.t,
    {
        self.t
    }
}

/// A prior link in a chain: the genesis itself, or a finished block.
#[derive(Debug)]
pub enum PermissionedBFTBase {
    /// The chain's genesis.
    Genesis(Genesis),
    /// A finished block.
    Block(Box<PermissionedBFTBlock>),
}

impl PermissionedBFTBase {
    /// The committee size this link carries.
    pub open spec fn spec_n(&self) -> i32 {
        match self {
            PermissionedBFTBase::Genesis(g) => g.n,
            PermissionedBFTBase::Block(b) => b.n,
        }
    }

    /// The notarization threshold this link carries.
    pub open spec fn spec_t(&self) -> i32 {
        match self {
            PermissionedBFTBase::Genesis(g) => g.t,
            PermissionedBFTBase::Block(b) => b.t,
        }
    }

    /// The genesis this link descends from.
    pub open spec fn spec_root(&self) -> Genesis
        decreases self,
    {
        match self {
            PermissionedBFTBase::Genesis(g) => *g,
            PermissionedBFTBase::Block(b) => b.proposal.parent.spec_root(),
        }
    }

    /// The committee size this link carries.
    pub fn n(&self) -> (r: i32)
        ensures
            r == self.spec_n(),
    {
        match self {
            PermissionedBFTBase::Genesis(g) => g.n,
            PermissionedBFTBase::Block(b) => b.n,
        }
    }

    /// The notarization threshold this link carries.
    pub fn t(&self) -> (r: i32)
        ensures
            r == self.spec_t(),
    {
        match self {
            PermissionedBFTBase::Genesis(g) => g.t,
            PermissionedBFTBase::Block(b) => b.t,
        }
    }

    /// The last final link: the genesis this link descends from.
    pub fn last_final(&self) -> (r: &Genesis)
        ensures
            *r == self.spec_root(),
        decreases *self,
    {
        match self {
            PermissionedBFTBase::Genesis(g) => g,
            PermissionedBFTBase::Block(b) => b.proposal.parent.last_final(),
        }
    }
}

/// A proposal for the next block: it carries the committee parameters of
/// its parent link and gathers distinct signer indices.
#[derive(Debug)]
pub struct PermissionedBFTProposal {
    /// The committee size, copied from the parent link.
    pub n: i32,
    /// The notarization threshold, copied from the parent link.
    pub t: i32,
    /// The link this proposal extends.
    pub parent: Box<PermissionedBFTBase>,
    /// The indices of the members who signed so far; no index twice.
    pub signers: Vec<i32>,
}

impl PermissionedBFTProposal {
    /// The proposal's well-formedness: no signer is recorded twice.
    pub open spec fn wf(&self) -> bool {
        forall|a: int, b: int|
            0 <= a < b < self.signers@.len() ==> self.signers@[a] != self.signers@[b]
    }

    /// Whether the proposal is valid: no more signatures than committee
    /// members.  A committee whose size underflows below zero rejects
    /// nothing.
    pub open spec fn spec_valid(&self) -> bool {
        self.n < 0 || self.signers@.len() <= self.n
    }

    /// Whether the proposal is notarized: valid, with at least `t`
    /// signatures for a non-negative threshold.
    pub open spec fn spec_notarized(&self) -> bool {
        self.spec_valid() && 0 <= self.t <= self.signers@.len()
    }

    /// Creates an unsigned proposal extending `parent`, carrying the
    /// parent's committee parameters.
    pub fn new(parent: PermissionedBFTBase) -> (r: Self)
        ensures
            r.n == parent.spec_n(),
            r.t == parent.spec_t(),
            *r.parent == parent,
            r.signers@.len() == 0,
            r.wf(),
    {
        let n = parent.n();
        let t = parent.t();
        PermissionedBFTProposal { n, t, parent: Box::new(parent), signers: Vec::new() }
    }

    /// Checks validity: rejects a proposal with more signatures than
    /// committee members.
    pub fn assert_valid(&self) -> (r: Result<(), &'static str>)
        ensures
            r is Ok <==> self.spec_valid(),
    {
        if self.n >= 0 && self.signers.len() > self.n as usize {
            return Err("Too many signatures");
        }
        Ok(())
    }

    /// Whether the proposal is valid.
    pub fn is_valid(&self) -> (r: bool)
        ensures
            r == self.spec_valid(),
    {
        self.assert_valid().is_ok()
    }

    /// Checks notarization: the proposal must be valid and carry at least
    /// `t` signatures.
    pub fn assert_notarized(&self) -> (r: Result<(), &'static str>)
        ensures
            r is Ok <==> self.spec_notarized(),
    {
        match self.assert_valid() {
            Ok(()) => {},
            Err(e) => {
                return Err(e);
            },
        }
        if self.t < 0 || self.signers.len() < self.t as usize {
            return Err("Not enough signatures");
        }
        Ok(())
    }

    /// Whether the proposal is notarized.
    pub fn is_notarized(&self) -> (r: bool)
        ensures
            r == self.spec_notarized(),
    {
        self.assert_notarized().is_ok()
    }

    /// Records a signature by member `index`; signing again is harmless.
    /// Fails when the signatures then outnumber the committee.
    pub fn add_signature(&mut self, index: i32) -> (r: Result<(), &'static str>)
        requires
            old(self).wf(),
            old(self).signers@.len() < usize::MAX,
        ensures
            final(self).wf(),
            final(self).n == old(self).n,
            final(self).t == old(self).t,
            final(self).parent == old(self).parent,
            old(self).signers@.contains(index) ==> final(self).signers@ == old(self).signers@,
            !old(self).signers@.contains(index) ==> final(self).signers@ == old(
                self,
            ).signers@.push(index),
            r is Ok <==> (old(self).n < 0 || final(self).signers@.len() <= old(self).n),
    {
        let mut found = false;
        let mut i: usize = 0;
        while i < self.signers.len()
            invariant
                0 <= i <= self.signers@.len(),
                found <==> exists|j: int| 0 <= j < i && self.signers@[j] == index,
            decreases self.signers@.len() - i,
        {
            if self.signers[i] == index {
                found = true;
            }
            i = i + 1;
        }
        if !found {
            self.signers.push(index);
        }
        if self.n >= 0 && self.signers.len() > self.n as usize {
            return Err("Too many signatures");
        }
        Ok(())
    }
}

/// A finished block: a notarized proposal together with the committee
/// parameters it was notarized under.
#[derive(Debug)]
pub struct PermissionedBFTBlock {
    /// The committee size.
    pub n: i32,
    /// The notarization threshold.
    pub t: i32,
    /// The notarized proposal this block seals.
    pub proposal: PermissionedBFTProposal,
}

impl PermissionedBFTBlock {
    /// Seals a proposal into a block; the proposal must be notarized.
    pub fn new(proposal: PermissionedBFTProposal) -> (r: Result<Self, &'static str>)
        ensures
            r is Ok <==> proposal.spec_notarized(),
            r matches Ok(b) ==> b.n == proposal.n && b.t == proposal.t && b.proposal == proposal,
    {
        match proposal.assert_notarized() {
            Ok(()) => {},
            Err(e) => {
                return Err(e);
            },
        }
        let n = proposal.n;
        let t = proposal.t;
        Ok(PermissionedBFTBlock { n, t, proposal })
    }

    /// The committee size.
    pub fn n(&self) -> (r: i32)
        ensures
            r == self.n,
    {
        self.n
    }

    /// The notarization threshold.
    pub fn t(&self) -> (r: i32)
        ensures
            r == self.t,
    {
        self.t
    }

    /// The last final link: the genesis this block descends from.
    pub fn last_final(&self) -> (r: &Genesis)
        ensures
            *r == self.proposal.parent.spec_root(),
    {
        self.proposal.parent.last_final()
    }
}

impl Clone for PermissionedBFTBase {
    fn clone(&self) -> Self
        decreases *self,
    {
        match self {
            PermissionedBFTBase::Genesis(g) => PermissionedBFTBase::Genesis(*g),
            PermissionedBFTBase::Block(b) => PermissionedBFTBase::Block(
                Box::new((**b).clone()),
            ),
        }
    }
}

impl Clone for PermissionedBFTProposal {
    fn clone(&self) -> Self
        decreases *self,
    {
        PermissionedBFTProposal {
            n: self.n,
            t: self.t,
            parent: Box::new((*self.parent).clone()),
            signers: self.signers.clone(),
        }
    }
}

impl Clone for PermissionedBFTBlock {
    fn clone(&self) -> Self
        decreases *self,
    {
        PermissionedBFTBlock { n: self.n, t: self.t, proposal: self.proposal.clone() }
    }
}

} // verus!
