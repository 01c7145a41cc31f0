//! Power-sum sketches ("quACKs") over a 16-bit prime field.
//!
//! A sketch summarises a multiset of packet identifiers by its size and its
//! first few power sums modulo a prime. Subtracting the sketch of what
//! arrived from the sketch of what was sent leaves the sketch of what went
//! missing, and the missing identifiers are recovered as the roots of a
//! polynomial whose coefficients follow from those power sums.

pub mod arithmetic;
pub mod decoder;
pub mod power_sum;
pub mod recovery;
pub mod sidecar;
pub mod sketch;
pub mod symmetric;
pub mod wire;

pub use crate::decoder::{DecodeError, DecodedQuack};
pub use crate::power_sum::{PowerSumQuack, QuackSnapshot, SnapshotError};
pub use crate::sidecar::{Schedule, Sidecar, SidecarType};

use vstd::prelude::*;

verus! {

/// A packet identifier.
pub type Identifier = u16;

/// The identifiers seen locally, in arrival order.
pub type IdentifierLog = Vec<Identifier>;

/// A summary of a multiset of identifiers that can be updated one
/// identifier at a time.
pub trait Quack: Sized {
    /// The most missing identifiers that the summary can name.
    spec fn spec_threshold(&self) -> nat;

    /// The number of identifiers in the summary, modulo 2^16.
    spec fn spec_count(&self) -> int;

    /// An empty summary with the given threshold, which must not be zero.
    fn new(threshold: usize) -> (q: Self)
        requires
            threshold > 0,
        ensures
            q.spec_threshold() == threshold,
            q.spec_count() == 0,
    ;

    /// Adds one identifier.
    fn insert(&mut self, value: Identifier)
        ensures
            final(self).spec_threshold() == old(self).spec_threshold(),
            final(self).spec_count() == (old(self).spec_count() + 1) % 0x1_0000,
    ;

    /// Takes out one identifier that was added before. Taking out one that
    /// was not leaves a summary of no multiset, and nothing reports it.
    fn remove(&mut self, value: Identifier)
        ensures
            final(self).spec_threshold() == old(self).spec_threshold(),
            final(self).spec_count() == (old(self).spec_count() - 1) % 0x1_0000,
    ;

    /// The threshold that the summary was made with.
    fn threshold(&self) -> (t: usize)
        ensures
            t == self.spec_threshold(),
    ;

    /// The number of identifiers added less those taken out, modulo 2^16.
    fn count(&self) -> (c: u16)
        ensures
            c == self.spec_count(),
    ;
}

} // verus!
