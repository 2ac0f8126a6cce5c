//! The registry that hands out the identifiers of the nodes.

use vstd::prelude::*;

verus! {

/// The source of node identifiers.
///
/// A registry starts at one and hands out each identifier once, in
/// increasing order. It never goes back: what it has issued stays below what
/// it will issue next.
#[derive(Debug)]
pub struct IdRegistry {
    pub(crate) next: usize,
}

impl IdRegistry {
    /// The identifier that the next call of `generate_id` hands out.
    pub open(crate) spec fn next_id(&self) -> usize {
        self.next
    }

    /// How many identifiers the registry can still hand out.
    pub open spec fn spec_remaining(&self) -> int {
        usize::MAX - self.next_id()
    }

    /// The registry after it has handed out `count` identifiers.
    pub open(crate) spec fn after(&self, count: nat) -> IdRegistry
        recommends
            count <= self.spec_remaining(),
    {
        IdRegistry { next: (self.next + count) as usize }
    }

    /// A fresh registry, whose first identifier is one.
    pub fn new() -> (r: Self)
        ensures
            r.next_id() == 1,
    {
        IdRegistry { next: 1 }
    }

    /// Whether every identifier has been handed out.
    pub fn is_exhausted(&self) -> (r: bool)
        ensures
            r == (self.spec_remaining() == 0),
    {
        self.next == usize::MAX
    }

    /// How many identifiers are left.
    pub fn remaining(&self) -> (r: usize)
        ensures
            r == self.spec_remaining(),
    {
        usize::MAX - self.next
    }

    /// Hands out the next identifier, which is greater than every one handed
    /// out before. A registry that is exhausted cannot be asked.
    pub fn generate_id(&mut self) -> (id: usize)
        requires
            old(self).spec_remaining() > 0,
        ensures
            id == old(self).next_id(),
            *final(self) == old(self).after(1),
            final(self).next_id() == id + 1,
    {
        let id = self.next;
        self.next = self.next + 1;
        id
    }
}

/// Hands out the next identifier of `registry`.
pub fn generate_id(registry: &mut IdRegistry) -> (id: usize)
    requires
        old(registry).spec_remaining() > 0,
    ensures
        id == old(registry).next_id(),
        *final(registry) == old(registry).after(1),
        final(registry).next_id() == old(registry).next_id() + 1,
        final(registry).next_id() == id + 1,
{
    registry.generate_id()
}

/// Two identifiers that a registry hands out at different times differ: the
/// later one is the greater.
pub proof fn lemma_identifiers_increase(registry: IdRegistry, earlier: nat, later: nat)
    requires
        earlier < later,
        later <= registry.spec_remaining(),
    ensures
        registry.after(earlier).next_id() < registry.after(later).next_id(),
        registry.after(earlier).after((later - earlier) as nat) == registry.after(later),
{
}

} // verus!
