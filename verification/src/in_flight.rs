//! The set of block requests that are under way, which bounds how many
//! there may be at once.

use vstd::prelude::*;
use std::collections::HashSet;

verus! {

broadcast use vstd::std_specs::hash::group_hash_axioms;

/// Calls `rand::random::<u64>()`. Nothing is promised of the number that
/// comes back: every caller is proved for any token.
#[verifier::external_body]
pub(crate) fn random_token() -> (token: u64) {
    rand::random::<u64>()
}

/// The tokens of the block requests under way in one download, never
/// more than a ceiling that is fixed when the set is made.
pub struct InFlight {
    tokens: HashSet<u64>,
    ceiling: usize,
}

impl View for InFlight {
    type V = Set<u64>;

    closed spec fn view(&self) -> Set<u64> {
        self.tokens@
    }
}

impl InFlight {
    /// The most tokens that the set may hold.
    pub closed spec fn ceiling(&self) -> nat {
        self.ceiling as nat
    }

    #[verifier::type_invariant]
    spec fn within_ceiling(&self) -> bool {
        self.tokens@.finite() && self.tokens@.len() <= self.ceiling
    }

    /// An empty set that will hold `ceiling` tokens at most.
    pub fn new(ceiling: usize) -> (set: InFlight)
        ensures
            set@ == Set::<u64>::empty(),
            set.ceiling() == ceiling,
    {
        InFlight { tokens: HashSet::new(), ceiling }
    }

    /// The number of requests under way: never above the ceiling.
    pub fn len(&self) -> (n: usize)
        ensures
            n == self@.len(),
            self@.finite(),
            n <= self.ceiling(),
    {
        proof {
            use_type_invariant(self);
        }
        self.tokens.len()
    }

    /// The most requests that may be under way at once.
    pub fn limit(&self) -> (n: usize)
        ensures
            n == self.ceiling(),
    {
        self.ceiling
    }

    /// Whether one more request may start.
    pub fn has_room(&self) -> (room: bool)
        ensures
            room == (self@.len() < self.ceiling()),
    {
        proof {
            use_type_invariant(self);
        }
        self.tokens.len() < self.ceiling
    }

    /// Whether `token` stands for a request under way.
    pub fn contains(&self, token: u64) -> (found: bool)
        ensures
            found == self@.contains(token),
    {
        self.tokens.contains(&token)
    }

    /// Registers `token` if there is room below the ceiling, and says
    /// whether it did. Where the set is full it stays as it is: the
    /// caller waits and tries again.
    pub fn register(&mut self, token: u64) -> (registered: bool)
        ensures
            registered == (old(self)@.len() < old(self).ceiling()),
            registered ==> final(self)@ == old(self)@.insert(token),
            !registered ==> final(self)@ == old(self)@,
            final(self).ceiling() == old(self).ceiling(),
            final(self)@.finite(),
            final(self)@.len() <= final(self).ceiling(),
    {
        proof {
            use_type_invariant(&*self);
        }
        if self.tokens.len() < self.ceiling {
            // The set is taken out while it changes, so that the bound
            // holds of `self` at every step.
            let mut tokens: HashSet<u64> = HashSet::new();
            core::mem::swap(&mut self.tokens, &mut tokens);
            tokens.insert(token);
            core::mem::swap(&mut self.tokens, &mut tokens);
            true
        } else {
            false
        }
    }

    /// Takes `token` out of the set, when its request has ended, well or
    /// badly.
    pub fn release(&mut self, token: u64)
        ensures
            final(self)@ == old(self)@.remove(token),
            final(self).ceiling() == old(self).ceiling(),
            final(self)@.finite(),
            final(self)@.len() <= final(self).ceiling(),
    {
        proof {
            use_type_invariant(&*self);
        }
        let mut tokens: HashSet<u64> = HashSet::new();
        core::mem::swap(&mut self.tokens, &mut tokens);
        tokens.remove(&token);
        core::mem::swap(&mut self.tokens, &mut tokens);
    }
}

} // verus!
